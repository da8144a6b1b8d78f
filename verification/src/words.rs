//! Character-level text handling shared by the readers of saved screens:
//! lines, trimming, splitting, and unsigned numbers as `FromStr` reads them.
use vstd::prelude::*;
use crate::screen::{
    append_chars, find_chars, first_occurrence, index_of, is_whitespace, is_ws, lemma_first_occurrence,
    lemma_index_of, occurs, split_lines, split_needle, trim_end, trimmed_len,
};

verus! {

/// `s` without a final carriage return.
pub open spec fn strip_cr(s: Seq<char>) -> Seq<char> {
    if s.len() > 0 && s.last() == '\r' {
        s.drop_last()
    } else {
        s
    }
}

/// The lines of `t` as `str::lines` gives them: split at `\n`, a `\r`
/// before the `\n` dropped, no empty line after a final `\n`.
pub open spec fn lines_spec(t: Seq<char>) -> Seq<Seq<char>> {
    let segs = split_lines(t);
    let init = segs.drop_last().map_values(|l: Seq<char>| strip_cr(l));
    if segs.len() == 0 || segs.last().len() == 0 {
        init
    } else {
        init.push(segs.last())
    }
}

/// `s` with its leading whitespace removed.
pub open spec fn trim_start(s: Seq<char>) -> Seq<char>
    decreases s.len(),
{
    if s.len() > 0 && is_ws(s[0]) {
        trim_start(s.drop_first())
    } else {
        s
    }
}

/// `s` with whitespace removed from both ends.
pub open spec fn trim(s: Seq<char>) -> Seq<char> {
    trim_start(trim_end(s))
}

/// Whether `s` holds nothing but whitespace.
pub open spec fn is_blank(s: Seq<char>) -> bool {
    trim_end(s).len() == 0
}

/// Whether `c` is an ASCII digit.
pub open spec fn is_digit(c: char) -> bool {
    '0' <= c <= '9'
}

/// Whether every character of `s` is an ASCII digit.
pub open spec fn all_digits(s: Seq<char>) -> bool {
    forall|i: int| 0 <= i < s.len() ==> is_digit(#[trigger] s[i])
}

/// The value of a run of decimal digits.
pub open spec fn digits_value(s: Seq<char>) -> nat
    decreases s.len(),
{
    if s.len() == 0 {
        0
    } else {
        digits_value(s.drop_last()) * 10 + (s.last() as nat - 48) as nat
    }
}

/// What an unsigned integer type whose largest value is `max` reads from
/// `s` through `FromStr`: an optional `+`, then one or more digits whose
/// value is at most `max`; anything else is `None`.
pub open spec fn uint_text(s: Seq<char>, max: nat) -> Option<nat> {
    let d = if s.len() > 0 && s[0] == '+' {
        s.drop_first()
    } else {
        s
    };
    if d.len() > 0 && all_digits(d) && digits_value(d) <= max {
        Some(digits_value(d))
    } else {
        None
    }
}

/// The index of the first whitespace character of `s`, or its length.
pub open spec fn ws_index(s: Seq<char>) -> int
    decreases s.len(),
{
    if s.len() == 0 {
        0
    } else if is_ws(s[0]) {
        0
    } else {
        1 + ws_index(s.drop_first())
    }
}

pub proof fn lemma_ws_index(s: Seq<char>)
    ensures
        0 <= ws_index(s) <= s.len(),
        forall|j: int| 0 <= j < ws_index(s) ==> !is_ws(#[trigger] s[j]),
        ws_index(s) < s.len() ==> is_ws(s[ws_index(s)]),
    decreases s.len(),
{
    if s.len() > 0 && !is_ws(s[0]) {
        lemma_ws_index(s.drop_first());
        assert forall|j: int| 0 <= j < ws_index(s) implies !is_ws(#[trigger] s[j]) by {
            if j > 0 {
                assert(s[j] == s.drop_first()[j - 1]);
            }
        }
    }
}

pub(crate) proof fn lemma_ws_index_unique(s: Seq<char>, r: int)
    requires
        0 <= r <= s.len(),
        forall|j: int| 0 <= j < r ==> !is_ws(#[trigger] s[j]),
        r < s.len() ==> is_ws(s[r]),
    ensures
        ws_index(s) == r,
    decreases s.len(),
{
    if s.len() > 0 && !is_ws(s[0]) {
        assert forall|j: int| 0 <= j < r - 1 implies !is_ws(#[trigger] s.drop_first()[j]) by {
            assert(s.drop_first()[j] == s[j + 1]);
        }
        lemma_ws_index_unique(s.drop_first(), r - 1);
    }
}

/// The whitespace-separated words of `s`, as `split_whitespace` gives them.
pub open spec fn words_spec(s: Seq<char>) -> Seq<Seq<char>>
    decreases s.len(),
{
    if s.len() == 0 {
        Seq::empty()
    } else if is_ws(s[0]) {
        words_spec(s.drop_first())
    } else {
        let k = ws_index(s);
        proof {
            lemma_ws_index(s);
        }
        seq![s.take(k)] + words_spec(s.skip(k))
    }
}

/// `s` split at every occurrence of `sep`, as `str::split` gives it.
pub open spec fn split_on(s: Seq<char>, sep: Seq<char>) -> Seq<Seq<char>>
    recommends
        sep.len() > 0,
    decreases s.len(),
{
    match first_occurrence(s, sep) {
        Some(k) => if 0 <= k && k + sep.len() <= s.len() && sep.len() > 0 {
            seq![s.take(k)] + split_on(s.skip(k + sep.len()), sep)
        } else {
            seq![s]
        },
        None => seq![s],
    }
}

/// The plain values of a vector of character vectors.
pub open spec fn texts(v: Seq<Vec<char>>) -> Seq<Seq<char>> {
    v.map_values(|x: Vec<char>| x@)
}

/// The lines of `t`, as `str::lines` gives them.
pub fn text_lines(t: &[char]) -> (r: Vec<Vec<char>>)
    ensures
        texts(r@) == lines_spec(t@),
{
    let segs = split_needle(t);
    let ghost sv = texts(segs@);
    let n = segs.len();
    let mut out: Vec<Vec<char>> = Vec::new();
    let mut i: usize = 0;
    while i + 1 < n
        invariant
            n == segs@.len() >= 1,
            sv == texts(segs@),
            sv == split_lines(t@),
            i + 1 <= n,
            texts(out@) == sv.take(i as int).map_values(|l: Seq<char>| strip_cr(l)),
        decreases n - i,
    {
        let seg = &segs[i];
        let len = seg.len();
        let keep = if len > 0 && seg[len - 1] == '\r' {
            len - 1
        } else {
            len
        };
        let mut line: Vec<char> = Vec::new();
        append_chars(&mut line, seg.as_slice(), keep);
        proof {
            assert(line@ =~= strip_cr(sv[i as int]));
        }
        let ghost before = texts(out@);
        out.push(line);
        proof {
            assert(texts(out@) =~= before.push(strip_cr(sv[i as int])));
            assert(sv.take(i + 1).map_values(|l: Seq<char>| strip_cr(l)) =~= sv.take(i as int).map_values(
                |l: Seq<char>| strip_cr(l),
            ).push(strip_cr(sv[i as int])));
        }
        i = i + 1;
    }
    proof {
        assert(sv.take(i as int) =~= sv.drop_last());
    }
    let last = &segs[n - 1];
    if last.len() > 0 {
        let mut line: Vec<char> = Vec::new();
        append_chars(&mut line, last.as_slice(), last.len());
        proof {
            assert(last@.take(last@.len() as int) =~= last@);
        }
        let ghost before = texts(out@);
        out.push(line);
        proof {
            assert(texts(out@) =~= before.push(sv.last()));
        }
    }
    out
}

/// Where `trim` cuts `v`: `v[a..b]` is `v` without whitespace at either end.
pub fn trim_range(v: &[char]) -> (r: (usize, usize))
    ensures
        r.0 <= r.1 <= v@.len(),
        v@.subrange(r.0 as int, r.1 as int) == trim(v@),
{
    let b = trimmed_len(v);
    let ghost e = v@.take(b as int);
    let mut a: usize = 0;
    assert(e.skip(0) =~= e);
    while a < b && is_whitespace(v[a])
        invariant
            a <= b <= v@.len(),
            e == v@.take(b as int),
            trim_start(e) == trim_start(e.skip(a as int)),
        decreases b - a,
    {
        proof {
            assert(e.skip(a as int).drop_first() =~= e.skip(a + 1));
        }
        a = a + 1;
    }
    proof {
        assert(e.skip(a as int) =~= v@.subrange(a as int, b as int));
    }
    (a, b)
}

/// Whether `v` holds nothing but whitespace.
pub fn blank(v: &[char]) -> (r: bool)
    ensures
        r == is_blank(v@),
{
    let n = trimmed_len(v);
    n == 0
}

proof fn lemma_digits_value_step(s: Seq<char>, k: int)
    requires
        0 <= k < s.len(),
    ensures
        digits_value(s.take(k + 1)) == digits_value(s.take(k)) * 10 + (s[k] as nat - 48) as nat,
{
    assert(s.take(k + 1).drop_last() =~= s.take(k));
}

proof fn lemma_digits_value_grows(s: Seq<char>, k: int, j: int)
    requires
        0 <= k <= j <= s.len(),
        all_digits(s),
    ensures
        digits_value(s.take(k)) <= digits_value(s.take(j)),
    decreases j - k,
{
    if k < j {
        lemma_digits_value_grows(s, k, j - 1);
        lemma_digits_value_step(s, j - 1);
    }
}

/// Read `s` as an unsigned integer type whose largest value is `max`
/// would through `FromStr`.
pub fn parse_uint(s: &[char], max: u32) -> (r: Option<u32>)
    ensures
        match uint_text(s@, max as nat) {
            Some(v) => r == Some(v as u32),
            None => r is None,
        },
{
    let len = s.len();
    let start: usize = if len > 0 && s[0] == '+' {
        1
    } else {
        0
    };
    let ghost d = s@.subrange(start as int, len as int);
    assert(d =~= if s@.len() > 0 && s@[0] == '+' {
        s@.drop_first()
    } else {
        s@
    });
    if start == len {
        return None;
    }
    let mut value: u64 = 0;
    let mut i = start;
    while i < len
        invariant
            start <= i <= len == s@.len(),
            start < len,
            d == s@.subrange(start as int, len as int),
            uint_text(s@, max as nat) == if all_digits(d) && digits_value(d) <= max {
                Some(digits_value(d))
            } else {
                None::<nat>
            },
            forall|j: int| start <= j < i ==> is_digit(#[trigger] s@[j]),
            value == digits_value(d.take(i - start)),
            value <= max,
        decreases len - i,
    {
        let c = s[i];
        if c < '0' || c > '9' {
            proof {
                assert(d[i - start] == c);
                assert(!all_digits(d));
            }
            return None;
        }
        proof {
            lemma_digits_value_step(d, i - start);
            assert(d[i - start] == c);
        }
        let digit = (c as u32 - '0' as u32) as u64;
        let next = value * 10 + digit;
        if next > max as u64 {
            proof {
                if all_digits(d) {
                    lemma_digits_value_grows(d, i - start + 1, d.len() as int);
                    assert(d.take(d.len() as int) =~= d);
                }
            }
            return None;
        }
        value = next;
        i = i + 1;
    }
    proof {
        assert(d.take(d.len() as int) =~= d);
        assert forall|j: int| 0 <= j < d.len() implies is_digit(#[trigger] d[j]) by {
            assert(d[j] == s@[start + j]);
        }
    }
    Some(value as u32)
}

/// Read `s` as an unsigned integer type whose largest value is `max`,
/// `u64::MAX` at most, would through `FromStr`.
pub fn parse_u64(s: &[char], max: u64) -> (r: Option<u64>)
    ensures
        match uint_text(s@, max as nat) {
            Some(v) => r == Some(v as u64),
            None => r is None,
        },
{
    let len = s.len();
    let start: usize = if len > 0 && s[0] == '+' {
        1
    } else {
        0
    };
    let ghost d = s@.subrange(start as int, len as int);
    assert(d =~= if s@.len() > 0 && s@[0] == '+' {
        s@.drop_first()
    } else {
        s@
    });
    if start == len {
        return None;
    }
    let mut value: u128 = 0;
    let mut i = start;
    while i < len
        invariant
            start <= i <= len == s@.len(),
            start < len,
            d == s@.subrange(start as int, len as int),
            uint_text(s@, max as nat) == if all_digits(d) && digits_value(d) <= max {
                Some(digits_value(d))
            } else {
                None::<nat>
            },
            forall|j: int| start <= j < i ==> is_digit(#[trigger] s@[j]),
            value == digits_value(d.take(i - start)),
            value <= max,
        decreases len - i,
    {
        let c = s[i];
        if c < '0' || c > '9' {
            proof {
                assert(d[i - start] == c);
                assert(!all_digits(d));
            }
            return None;
        }
        proof {
            lemma_digits_value_step(d, i - start);
            assert(d[i - start] == c);
        }
        let digit = (c as u32 - '0' as u32) as u128;
        let next = value * 10 + digit;
        if next > max as u128 {
            proof {
                if all_digits(d) {
                    lemma_digits_value_grows(d, i - start + 1, d.len() as int);
                    assert(d.take(d.len() as int) =~= d);
                }
            }
            return None;
        }
        value = next;
        i = i + 1;
    }
    proof {
        assert(d.take(d.len() as int) =~= d);
        assert forall|j: int| 0 <= j < d.len() implies is_digit(#[trigger] d[j]) by {
            assert(d[j] == s@[start + j]);
        }
    }
    Some(value as u64)
}

/// The index of the first whitespace character of `s[from..]`, as an index
/// into `s`; `s.len()` when there is none.
fn ws_from(s: &[char], from: usize) -> (r: usize)
    requires
        from <= s@.len(),
    ensures
        from <= r <= s@.len(),
        r - from == ws_index(s@.skip(from as int)),
{
    let mut i = from;
    while i < s.len() && !is_whitespace(s[i])
        invariant
            from <= i <= s@.len(),
            forall|j: int| from <= j < i ==> !is_ws(#[trigger] s@[j]),
        decreases s@.len() - i,
    {
        i = i + 1;
    }
    proof {
        let t = s@.skip(from as int);
        assert forall|j: int| 0 <= j < i - from implies !is_ws(#[trigger] t[j]) by {
            assert(t[j] == s@[from + j]);
        }
        if i < s@.len() {
            assert(t[i - from] == s@[i as int]);
        }
        lemma_ws_index_unique(t, i - from);
    }
    i
}

/// The whitespace-separated words of `s`.
pub fn words(s: &[char]) -> (r: Vec<Vec<char>>)
    ensures
        texts(r@) == words_spec(s@),
{
    let mut out: Vec<Vec<char>> = Vec::new();
    let mut i: usize = 0;
    let len = s.len();
    assert(s@.skip(0) =~= s@);
    while i < len
        invariant
            i <= len == s@.len(),
            texts(out@) + words_spec(s@.skip(i as int)) == words_spec(s@),
        decreases len - i,
    {
        let ghost rest = s@.skip(i as int);
        if is_whitespace(s[i]) {
            proof {
                assert(rest[0] == s@[i as int]);
                assert(rest.drop_first() =~= s@.skip(i + 1));
            }
            i = i + 1;
        } else {
            let j = ws_from(s, i);
            proof {
                assert(rest[0] == s@[i as int]);
                lemma_ws_index(rest);
            }
            let mut w: Vec<char> = Vec::new();
            append_chars(&mut w, vstd::slice::slice_subrange(s, i, j), j - i);
            let ghost before = texts(out@);
            proof {
                assert(w@ =~= rest.take(j - i));
                assert(rest.skip(j - i) =~= s@.skip(j as int));
                assert(words_spec(rest) == seq![rest.take(j - i)] + words_spec(s@.skip(j as int)));
            }
            out.push(w);
            proof {
                assert(texts(out@) =~= before.push(rest.take(j - i)));
                assert(before.push(rest.take(j - i)) + words_spec(s@.skip(j as int)) =~= before + (seq![
                    rest.take(j - i),
                ] + words_spec(s@.skip(j as int))));
            }
            i = j;
        }
    }
    proof {
        assert(s@.skip(len as int) =~= Seq::<char>::empty());
        assert(texts(out@) + Seq::<Seq<char>>::empty() =~= texts(out@));
    }
    out
}

/// `s` split at every occurrence of the non-empty `sep`.
pub fn split_at_each(s: &[char], sep: &[char]) -> (r: Vec<Vec<char>>)
    requires
        sep@.len() > 0,
    ensures
        texts(r@) == split_on(s@, sep@),
{
    let mut out: Vec<Vec<char>> = Vec::new();
    let mut start: usize = 0;
    let len = s.len();
    assert(s@.skip(0) =~= s@);
    loop
        invariant
            start <= len == s@.len(),
            sep@.len() > 0,
            texts(out@) + split_on(s@.skip(start as int), sep@) == split_on(s@, sep@),
        decreases len - start,
    {
        let rest = vstd::slice::slice_subrange(s, start, len);
        assert(rest@ =~= s@.skip(start as int));
        let ghost before = texts(out@);
        match find_chars(rest, sep) {
            Some(k) => {
                proof {
                    lemma_first_occurrence(rest@, sep@, k as int);
                }
                let mut w: Vec<char> = Vec::new();
                append_chars(&mut w, rest, k);
                out.push(w);
                proof {
                    assert(rest@.skip(k + sep@.len()) =~= s@.skip(start + k + sep@.len()));
                    assert(texts(out@) =~= before.push(rest@.take(k as int)));
                    assert(before.push(rest@.take(k as int)) + split_on(s@.skip(start + k + sep@.len()), sep@)
                        =~= before + (seq![rest@.take(k as int)] + split_on(s@.skip(start + k + sep@.len()), sep@)));
                }
                start = start + k + sep.len();
            },
            None => {
                let mut w: Vec<char> = Vec::new();
                append_chars(&mut w, rest, rest.len());
                out.push(w);
                proof {
                    assert(first_occurrence(rest@, sep@) is None);
                    assert(rest@.take(rest@.len() as int) =~= rest@);
                    assert(texts(out@) =~= before + seq![rest@]);
                }
                return out;
            },
        }
    }
}

} // verus!
