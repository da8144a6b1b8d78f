//! Standard base64, decoded strictly: `None` for anything that is not valid,
//! never a best effort.
use vstd::prelude::*;

verus! {

/// The value of one base64 alphabet byte.
pub open spec fn b64_value(b: u8) -> Option<nat> {
    if 0x41 <= b <= 0x5a {
        Some((b - 0x41) as nat)
    } else if 0x61 <= b <= 0x7a {
        Some((b - 0x61 + 26) as nat)
    } else if 0x30 <= b <= 0x39 {
        Some((b - 0x30 + 52) as nat)
    } else if b == 0x2b {
        Some(62nat)
    } else if b == 0x2f {
        Some(63nat)
    } else {
        None
    }
}

/// Whether every byte of `q` is in the alphabet.
pub open spec fn all_in_alphabet(q: Seq<u8>) -> bool {
    forall|i: int| 0 <= i < q.len() ==> (#[trigger] b64_value(q[i])) is Some
}

/// The value of byte `i` of a quantum.
pub open spec fn qv(q: Seq<u8>, i: int) -> nat {
    b64_value(q[i]).unwrap()
}

/// The bytes one quantum of two, three or four characters carries.
pub open spec fn quantum_bytes(q: Seq<u8>) -> Seq<u8> {
    let b0 = (qv(q, 0) * 4 + qv(q, 1) / 16) as u8;
    if q.len() == 2 {
        seq![b0]
    } else {
        let b1 = ((qv(q, 1) % 16) * 16 + qv(q, 2) / 4) as u8;
        if q.len() == 3 {
            seq![b0, b1]
        } else {
            seq![b0, b1, ((qv(q, 2) % 4) * 64 + qv(q, 3)) as u8]
        }
    }
}

/// The bytes a padding-free body of whole quanta (and a final quantum of
/// two or three characters) carries, or `None` when a byte is out of the
/// alphabet.
pub open spec fn decode_body(body: Seq<u8>) -> Option<Seq<u8>>
    decreases body.len(),
{
    if body.len() == 0 {
        Some(Seq::empty())
    } else {
        let n = if body.len() < 4 { body.len() as int } else { 4 };
        let q = body.take(n);
        if !all_in_alphabet(q) {
            None
        } else {
            match decode_body(body.skip(n)) {
                Some(rest) => Some(quantum_bytes(q) + rest),
                None => None,
            }
        }
    }
}

/// How many trailing `=` are stripped: two, one, or none.
pub open spec fn pad_len(input: Seq<u8>) -> nat {
    let n = input.len();
    if n >= 2 && input[n - 1] == 0x3d && input[n - 2] == 0x3d {
        2
    } else if n >= 1 && input[n - 1] == 0x3d {
        1
    } else {
        0
    }
}

/// Standard base64 decoding. Padding is optional but must be trailing and
/// at most two bytes, and a padded input is a whole number of quanta; a
/// body that leaves one character over encodes nothing and is refused.
pub open spec fn base64_decode(input: Seq<u8>) -> Option<Seq<u8>> {
    let pad = pad_len(input);
    let body = input.take(input.len() - pad);
    if pad > 0 && input.len() % 4 != 0 {
        None
    } else if body.len() % 4 == 1 {
        None
    } else {
        decode_body(body)
    }
}

fn value(b: u8) -> (v: Option<u8>)
    ensures
        v matches Some(x) ==> b64_value(b) == Some(x as nat) && x < 64,
        v is None ==> b64_value(b) is None,
{
    if 0x41 <= b && b <= 0x5a {
        Some(b - 0x41)
    } else if 0x61 <= b && b <= 0x7a {
        Some(b - 0x61 + 26)
    } else if 0x30 <= b && b <= 0x39 {
        Some(b - 0x30 + 52)
    } else if b == 0x2b {
        Some(62)
    } else if b == 0x2f {
        Some(63)
    } else {
        None
    }
}

proof fn lemma_decode_body_unfold(body: Seq<u8>)
    requires
        body.len() > 0,
    ensures
        ({
            let n = if body.len() < 4 { body.len() as int } else { 4 };
            let q = body.take(n);
            decode_body(body) == if !all_in_alphabet(q) {
                None
            } else {
                match decode_body(body.skip(n)) {
                    Some(rest) => Some(quantum_bytes(q) + rest),
                    None => None,
                }
            }
        }),
{
}

/// Decode standard base64: `None` for an out-of-alphabet byte, a bad
/// length, or padding in the wrong place.
pub fn decode_base64(input: &[u8]) -> (out: Option<Vec<u8>>)
    ensures
        out matches Some(v) ==> base64_decode(input@) == Some(v@),
        out is None ==> base64_decode(input@) is None,
{
    let len = input.len();
    let pad: usize = if len >= 2 && input[len - 1] == 0x3d && input[len - 2] == 0x3d {
        2
    } else if len >= 1 && input[len - 1] == 0x3d {
        1
    } else {
        0
    };
    assert(pad as nat == pad_len(input@));
    let body_len = len - pad;
    if pad > 0 && len % 4 != 0 {
        return None;
    }
    if body_len % 4 == 1 {
        return None;
    }
    let ghost body = input@.take(body_len as int);
    assert(base64_decode(input@) == decode_body(body));
    assert(body.skip(0) =~= body);
    assert(Seq::<u8>::empty() + body =~= body);
    let mut out: Vec<u8> = Vec::new();
    let mut at: usize = 0;
    while at < body_len
        invariant
            at <= body_len <= input@.len(),
            body == input@.take(body_len as int),
            base64_decode(input@) == decode_body(body),
            body_len % 4 != 1,
            at % 4 == 0 || at == body_len,
            decode_body(body) matches Some(all) ==> (decode_body(body.skip(at as int)) matches Some(rest)
                && all == out@ + rest),
            decode_body(body) is None ==> decode_body(body.skip(at as int)) is None,
        decreases body_len - at,
    {
        let ghost rest = body.skip(at as int);
        proof { lemma_decode_body_unfold(rest); }
        let n: usize = if body_len - at < 4 { body_len - at } else { 4 };
        let ghost q = rest.take(n as int);
        assert(!all_in_alphabet(q) ==> decode_body(rest) is None);
        let mut vals: Vec<u8> = Vec::new();
        let mut k: usize = 0;
        while k < n
            invariant
                k <= n <= 4,
                at + n <= body_len <= input@.len(),
                rest == input@.take(body_len as int).skip(at as int),
                q == rest.take(n as int),
                base64_decode(input@) == decode_body(input@.take(body_len as int)),
                decode_body(input@.take(body_len as int)) is Some ==> decode_body(rest) is Some,
                !all_in_alphabet(q) ==> decode_body(rest) is None,
                vals@.len() == k,
                forall|j: int| 0 <= j < k ==> b64_value(#[trigger] q[j]) == Some(vals@[j] as nat) && vals@[j] < 64,
            decreases n - k,
        {
            match value(input[at + k]) {
                Some(v) => {
                    proof { assert(q[k as int] == input@[at + k]); }
                    vals.push(v);
                },
                None => {
                    proof {
                        assert(q[k as int] == input@[at + k]);
                        assert(!all_in_alphabet(q));
                    }
                    return None;
                },
            }
            k = k + 1;
        }
        proof {
            assert(all_in_alphabet(q));
            assert(n >= 2) by {
                assert(body_len % 4 != 1);
                assert(at % 4 == 0);
            }
        }
        let a = vals[0] as u32;
        let b = vals[1] as u32;
        let b0 = (a * 4 + b / 16) as u8;
        out.push(b0);
        if n >= 3 {
            let c = vals[2] as u32;
            let b1 = ((b % 16) * 16 + c / 4) as u8;
            out.push(b1);
            if n == 4 {
                let d = vals[3] as u32;
                let b2 = ((c % 4) * 64 + d) as u8;
                out.push(b2);
            }
        }
        proof {
            assert(qv(q, 0) == a);
            assert(qv(q, 1) == b);
            if n >= 3 { assert(qv(q, 2) == vals@[2]); }
            if n == 4 { assert(qv(q, 3) == vals@[3]); }
            assert(rest.skip(n as int) =~= body.skip(at + n));
        }
        at = at + n;
    }
    proof {
        assert(body.skip(at as int) =~= Seq::<u8>::empty());
    }
    Some(out)
}

} // verus!
