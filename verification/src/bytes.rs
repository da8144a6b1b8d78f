//! Byte-string scanning shared by the escape-sequence tracker and the
//! graphics decoder: finding a byte, splitting `key=value` lists, and
//! reading unsigned decimals.
use vstd::prelude::*;

verus! {

/// The index of the first `b` in `s`, or `s.len()` when there is none.
pub open spec fn find_byte(s: Seq<u8>, b: u8) -> int
    decreases s.len(),
{
    if s.len() == 0 {
        0
    } else if s[0] == b {
        0
    } else {
        1 + find_byte(s.drop_first(), b)
    }
}

/// `find_byte` is the first occurrence: nothing before it is `b`, and it is
/// `b` unless it is the end.
pub proof fn lemma_find_byte(s: Seq<u8>, b: u8)
    ensures
        0 <= find_byte(s, b) <= s.len(),
        forall|j: int| 0 <= j < find_byte(s, b) ==> s[j] != b,
        find_byte(s, b) < s.len() ==> s[find_byte(s, b)] == b,
    decreases s.len(),
{
    if s.len() > 0 && s[0] != b {
        lemma_find_byte(s.drop_first(), b);
        assert forall|j: int| 0 <= j < find_byte(s, b) implies s[j] != b by {
            if j > 0 {
                assert(s[j] == s.drop_first()[j - 1]);
            }
        }
    }
}

/// Any index with the first-occurrence property is `find_byte`.
pub proof fn lemma_find_byte_unique(s: Seq<u8>, b: u8, r: int)
    requires
        0 <= r <= s.len(),
        forall|j: int| 0 <= j < r ==> s[j] != b,
        r < s.len() ==> s[r] == b,
    ensures
        find_byte(s, b) == r,
    decreases s.len(),
{
    if s.len() > 0 && s[0] != b {
        assert forall|j: int| 0 <= j < r - 1 implies s.drop_first()[j] != b by {
            assert(s.drop_first()[j] == s[j + 1]);
        }
        lemma_find_byte_unique(s.drop_first(), b, r - 1);
    }
}

/// The first `b` in `s[from..to]`, as an index into `s`; `to` when there is
/// none.
pub fn position(s: &[u8], from: usize, to: usize, b: u8) -> (at: usize)
    requires
        from <= to <= s@.len(),
    ensures
        from <= at <= to,
        at - from == find_byte(s@.subrange(from as int, to as int), b),
{
    let mut i = from;
    while i < to
        invariant
            from <= i <= to <= s@.len(),
            forall|j: int| from <= j < i ==> s@[j] != b,
        ensures
            from <= i <= to,
            forall|j: int| from <= j < i ==> s@[j] != b,
            i < to ==> s@[i as int] == b,
        decreases to - i,
    {
        if s[i] == b {
            break;
        }
        i = i + 1;
    }
    proof {
        let sub = s@.subrange(from as int, to as int);
        assert forall|j: int| 0 <= j < i - from implies sub[j] != b by {
            assert(sub[j] == s@[from + j]);
        }
        lemma_find_byte_unique(sub, b, i - from);
    }
    i
}

/// The value of `name` in a comma-separated `name=value` list: the first
/// field whose text before its first `=` is exactly `name`.
pub open spec fn key_value(s: Seq<u8>, name: Seq<u8>) -> Option<Seq<u8>>
    decreases s.len(),
{
    let end = find_byte(s, 0x2c);
    proof {
        lemma_find_byte(s, 0x2c);
    }
    let field = s.take(end);
    let eq = find_byte(field, 0x3d);
    if eq < field.len() && field.take(eq) == name {
        Some(field.skip(eq + 1))
    } else if end < s.len() {
        key_value(s.skip(end + 1), name)
    } else {
        None
    }
}

/// The field of a list separated by `sep` that starts with `prefix`, with
/// the prefix removed: the first such field.
pub open spec fn prefixed_field(s: Seq<u8>, sep: u8, prefix: Seq<u8>) -> Option<Seq<u8>>
    decreases s.len(),
{
    let end = find_byte(s, sep);
    proof {
        lemma_find_byte(s, sep);
    }
    let field = s.take(end);
    if prefix.len() <= field.len() && field.take(prefix.len() as int) == prefix {
        Some(field.skip(prefix.len() as int))
    } else if end < s.len() {
        prefixed_field(s.skip(end + 1), sep, prefix)
    } else {
        None
    }
}

/// Whether some field of a comma-separated list is exactly `f`.
pub open spec fn has_field(s: Seq<u8>, f: Seq<u8>) -> bool
    decreases s.len(),
{
    let end = find_byte(s, 0x2c);
    proof {
        lemma_find_byte(s, 0x2c);
    }
    if s.take(end) == f {
        true
    } else if end < s.len() {
        has_field(s.skip(end + 1), f)
    } else {
        false
    }
}

/// Whether `s[from..from + p.len()]` is `p`.
pub fn matches_at(s: &[u8], from: usize, to: usize, p: &[u8]) -> (r: bool)
    requires
        from <= to <= s@.len(),
    ensures
        r == (p@.len() <= to - from && s@.subrange(from as int, from + p@.len()) == p@),
{
    if p.len() > to - from {
        return false;
    }
    let mut k: usize = 0;
    while k < p.len()
        invariant
            p@.len() <= to - from,
            to <= s@.len(),
            k <= p@.len(),
            forall|j: int| 0 <= j < k ==> s@[from + j] == p@[j],
        decreases p@.len() - k,
    {
        if s[from + k] != p[k] {
            proof {
                assert(s@.subrange(from as int, from + p@.len())[k as int] != p@[k as int]);
            }
            return false;
        }
        k = k + 1;
    }
    proof {
        assert(s@.subrange(from as int, from + p@.len()) =~= p@);
    }
    true
}

/// Where the value of `name` sits in the comma-separated list `s`, as a
/// range of `s`.
pub fn key_range(s: &[u8], name: &[u8]) -> (r: Option<(usize, usize)>)
    ensures
        r matches Some((a, b)) ==> a <= b <= s@.len() && key_value(s@, name@) == Some(
            s@.subrange(a as int, b as int),
        ),
        r is None ==> key_value(s@, name@) is None,
{
    let mut start: usize = 0;
    let len = s.len();
    proof {
        assert(s@.skip(0) =~= s@);
    }
    while start <= len
        invariant
            start <= len == s@.len(),
            key_value(s@, name@) == key_value(s@.skip(start as int), name@),
        decreases len + 1 - start,
    {
        let ghost rest = s@.skip(start as int);
        let end = position(s, start, len, 0x2c);
        assert(s@.subrange(start as int, len as int) =~= rest);
        let eq = position(s, start, end, 0x3d);
        proof {
            let field = rest.take(end - start);
            assert(s@.subrange(start as int, end as int) =~= field);
            assert(key_value(rest, name@) == if find_byte(field, 0x3d) < field.len() && field.take(
                find_byte(field, 0x3d),
            ) == name@ {
                Some(field.skip(find_byte(field, 0x3d) + 1))
            } else if end - start < rest.len() {
                key_value(rest.skip(end - start + 1), name@)
            } else {
                None
            });
        }
        if eq < end && matches_at(s, start, eq, name) && eq - start == name.len() {
            proof {
                let field = rest.take(end - start);
                assert(field.take(eq - start) =~= s@.subrange(start as int, eq as int));
                assert(field.skip(eq - start + 1) =~= s@.subrange(eq + 1, end as int));
                assert(s@.subrange(start as int, start + name@.len()) =~= s@.subrange(
                    start as int,
                    eq as int,
                ));
            }
            return Some((eq + 1, end));
        }
        proof {
            let field = rest.take(end - start);
            if eq < end && field.take(eq - start) == name@ {
                assert(field.take(eq - start) =~= s@.subrange(start as int, eq as int));
                assert(s@.subrange(start as int, start + name@.len()) =~= s@.subrange(
                    start as int,
                    eq as int,
                ));
            }
        }
        if end == len {
            return None;
        }
        proof {
            assert(rest.skip(end - start + 1) =~= s@.skip(end + 1));
        }
        start = end + 1;
    }
    None
}

/// Where the field of `s` (fields separated by `sep`) that starts with
/// `prefix` continues past it, as a range of `s`.
pub fn prefixed_range(s: &[u8], sep: u8, prefix: &[u8]) -> (r: Option<(usize, usize)>)
    ensures
        r matches Some((a, b)) ==> a <= b <= s@.len() && prefixed_field(s@, sep, prefix@) == Some(
            s@.subrange(a as int, b as int),
        ),
        r is None ==> prefixed_field(s@, sep, prefix@) is None,
{
    let mut start: usize = 0;
    let len = s.len();
    proof {
        assert(s@.skip(0) =~= s@);
    }
    while start <= len
        invariant
            start <= len == s@.len(),
            prefixed_field(s@, sep, prefix@) == prefixed_field(s@.skip(start as int), sep, prefix@),
        decreases len + 1 - start,
    {
        let ghost rest = s@.skip(start as int);
        let end = position(s, start, len, sep);
        assert(s@.subrange(start as int, len as int) =~= rest);
        let ghost field = rest.take(end - start);
        assert(s@.subrange(start as int, end as int) =~= field);
        if matches_at(s, start, end, prefix) {
            proof {
                assert(field.take(prefix@.len() as int) =~= s@.subrange(
                    start as int,
                    start + prefix@.len(),
                ));
                assert(field.skip(prefix@.len() as int) =~= s@.subrange(
                    start + prefix@.len(),
                    end as int,
                ));
            }
            return Some((start + prefix.len(), end));
        }
        proof {
            if prefix@.len() <= field.len() && field.take(prefix@.len() as int) == prefix@ {
                assert(field.take(prefix@.len() as int) =~= s@.subrange(
                    start as int,
                    start + prefix@.len(),
                ));
            }
        }
        if end == len {
            return None;
        }
        proof {
            assert(rest.skip(end - start + 1) =~= s@.skip(end + 1));
        }
        start = end + 1;
    }
    None
}

/// The value of a run of ASCII digits.
pub open spec fn digits_value(s: Seq<u8>) -> nat
    decreases s.len(),
{
    if s.len() == 0 {
        0
    } else {
        digits_value(s.drop_last()) * 10 + (s.last() - 48) as nat
    }
}

/// Whether every byte of `s` is an ASCII digit.
pub open spec fn all_digits(s: Seq<u8>) -> bool {
    forall|i: int| 0 <= i < s.len() ==> 0x30 <= #[trigger] s[i] <= 0x39
}

/// What `u32`'s `FromStr` makes of these bytes: an optional `+`, then one
/// or more digits whose value fits; anything else is `None`.
pub open spec fn parse_u32_spec(s: Seq<u8>) -> Option<u32> {
    let d = if s.len() > 0 && s[0] == 0x2b {
        s.skip(1)
    } else {
        s
    };
    if d.len() > 0 && all_digits(d) && digits_value(d) <= u32::MAX {
        Some(digits_value(d) as u32)
    } else {
        None
    }
}

proof fn lemma_digits_value_step(s: Seq<u8>, k: int)
    requires
        0 <= k < s.len(),
    ensures
        digits_value(s.take(k + 1)) == digits_value(s.take(k)) * 10 + (s[k] - 48) as nat,
{
    assert(s.take(k + 1).drop_last() =~= s.take(k));
}

proof fn lemma_digits_value_grows(s: Seq<u8>, k: int, j: int)
    requires
        0 <= k <= j <= s.len(),
        all_digits(s),
    ensures
        digits_value(s.take(k)) <= digits_value(s.take(j)),
    decreases j - k,
{
    if k < j {
        lemma_digits_value_grows(s, k, j - 1);
        lemma_digits_value_step(s, j - 1);
    }
}

/// Read `s[from..to]` as `u32`'s `FromStr` would.
pub fn parse_u32(s: &[u8], from: usize, to: usize) -> (r: Option<u32>)
    requires
        from <= to <= s@.len(),
    ensures
        r == parse_u32_spec(s@.subrange(from as int, to as int)),
{
    let ghost all = s@.subrange(from as int, to as int);
    let start = if from < to && s[from] == 0x2b {
        from + 1
    } else {
        from
    };
    let ghost d = s@.subrange(start as int, to as int);
    assert(from < to ==> all[0] == s@[from as int]);
    assert(d =~= if all.len() > 0 && all[0] == 0x2b {
        all.skip(1)
    } else {
        all
    });
    assert(parse_u32_spec(all) == if d.len() > 0 && all_digits(d) && digits_value(d) <= u32::MAX {
        Some(digits_value(d) as u32)
    } else {
        None::<u32>
    });
    if start == to {
        return None;
    }
    let mut value: u64 = 0;
    let mut i = start;
    while i < to
        invariant
            start <= i <= to <= s@.len(),
            d == s@.subrange(start as int, to as int),
            all == s@.subrange(from as int, to as int),
            d.len() > 0,
            parse_u32_spec(all) == if all_digits(d) && digits_value(d) <= u32::MAX {
                Some(digits_value(d) as u32)
            } else {
                None::<u32>
            },
            forall|j: int| start <= j < i ==> 0x30 <= #[trigger] s@[j] <= 0x39,
            value == digits_value(d.take(i - start)),
            value <= u32::MAX,
        decreases to - i,
    {
        let c = s[i];
        if c < 0x30 || c > 0x39 {
            proof {
                assert(d[i - start] == c);
            }
            return None;
        }
        proof {
            lemma_digits_value_step(d, i - start);
        }
        let next = value * 10 + (c - 0x30) as u64;
        if next > 0xffff_ffff {
            proof {
                if all_digits(d) {
                    lemma_digits_value_grows(d, i - start + 1, d.len() as int);
                    assert(d.take(d.len() as int) =~= d);
                }
            }
            return None;
        }
        value = next;
        i = i + 1;
    }
    proof {
        assert(d.take(d.len() as int) =~= d);
        assert forall|j: int| 0 <= j < d.len() implies 0x30 <= #[trigger] d[j] <= 0x39 by {
            assert(d[j] == s@[start + j]);
        }
    }
    Some(value as u32)
}


/// Whether some field of the comma-separated list `s` is exactly `f`.
pub fn field_is(s: &[u8], f: &[u8]) -> (r: bool)
    ensures
        r == has_field(s@, f@),
{
    let mut start: usize = 0;
    let len = s.len();
    proof {
        assert(s@.skip(0) =~= s@);
    }
    while start <= len
        invariant
            start <= len == s@.len(),
            has_field(s@, f@) == has_field(s@.skip(start as int), f@),
        decreases len + 1 - start,
    {
        let ghost rest = s@.skip(start as int);
        let end = position(s, start, len, 0x2c);
        assert(s@.subrange(start as int, len as int) =~= rest);
        let ghost field = rest.take(end - start);
        assert(s@.subrange(start as int, end as int) =~= field);
        if end - start == f.len() && matches_at(s, start, end, f) {
            proof {
                assert(s@.subrange(start as int, start + f@.len()) =~= field);
            }
            return true;
        }
        proof {
            if field == f@ {
                assert(s@.subrange(start as int, start + f@.len()) =~= field);
            }
        }
        if end == len {
            return false;
        }
        proof {
            assert(rest.skip(end - start + 1) =~= s@.skip(end + 1));
        }
        start = end + 1;
    }
    false
}

} // verus!
