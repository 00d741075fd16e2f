//! Unsigned LEB128 integers, as used for the length fields of a record header.
use vstd::prelude::*;

verus! {

/// The most bytes a length field may take: enough for any 32-bit value.
pub const MAX_VARINT_LEN: usize = 5;

/// The minimal LEB128 encoding of `n`: seven bits per byte, low bits first,
/// the high bit set on every byte but the last.
pub open spec fn leb128(n: nat) -> Seq<u8>
    decreases n,
{
    if n < 128 {
        seq![n as u8]
    } else {
        seq![(n % 128 + 128) as u8] + leb128(n / 128)
    }
}

/// Reads one minimal LEB128 integer from the front of `s`, using at most
/// `limit` bytes. Gives the value and the number of bytes it took; `None`
/// where `s` ends too soon, the integer runs past `limit` bytes, or its
/// encoding is not the minimal one.
pub open spec fn leb128_prefix(s: Seq<u8>, limit: nat) -> Option<(nat, nat)>
    decreases limit,
{
    if limit == 0 || s.len() == 0 {
        None
    } else if s[0] < 128 {
        Some((s[0] as nat, 1))
    } else {
        match leb128_prefix(s.drop_first(), (limit - 1) as nat) {
            Some((v, k)) => if v > 0 {
                Some((((s[0] - 128) + 128 * v) as nat, k + 1))
            } else {
                None
            },
            None => None,
        }
    }
}

/// A length field as the record format reads it: a minimal LEB128 integer of
/// at most five bytes whose value fits in 32 bits.
pub open spec fn length_field(s: Seq<u8>) -> Option<(nat, nat)> {
    match leb128_prefix(s, MAX_VARINT_LEN as nat) {
        Some((v, k)) => if v <= u32::MAX {
            Some((v, k))
        } else {
            None
        },
        None => None,
    }
}

pub proof fn lemma_leb128_len(n: nat)
    ensures
        1 <= leb128(n).len() <= 5 || n > u32::MAX,
        n < 128 ==> leb128(n).len() == 1,
        n >= 128 ==> leb128(n).len() == 1 + leb128(n / 128).len(),
        forall|i: int| 0 <= i < leb128(n).len() - 1 ==> leb128(n)[i] >= 128,
        leb128(n)[leb128(n).len() - 1] < 128,
    decreases n,
{
    if n >= 128 {
        lemma_leb128_len(n / 128);
        let t = leb128(n / 128);
        assert(leb128(n) == seq![(n % 128 + 128) as u8] + t);
        assert forall|i: int| 0 <= i < leb128(n).len() - 1 implies leb128(n)[i] >= 128 by {
            if i > 0 {
                assert(leb128(n)[i] == t[i - 1]);
            }
        }
        if n <= u32::MAX {
            assert(n / 128 < 128 * 128 * 128 * 128);
            if n / 128 >= 128 {
                lemma_leb128_len(n / 128 / 128);
                if n / 128 / 128 >= 128 {
                    lemma_leb128_len(n / 128 / 128 / 128);
                    if n / 128 / 128 / 128 >= 128 {
                        lemma_leb128_len(n / 128 / 128 / 128 / 128);
                    }
                }
            }
        }
    }
}

/// Reading back a written length field gives the value and its byte count,
/// whatever follows it.
pub proof fn lemma_length_field_round_trip(n: nat, rest: Seq<u8>)
    requires
        n <= u32::MAX,
    ensures
        length_field(leb128(n) + rest) == Some((n, leb128(n).len())),
{
    lemma_leb128_len(n);
    lemma_prefix_round_trip(n, rest, MAX_VARINT_LEN as nat);
}

proof fn lemma_prefix_round_trip(n: nat, rest: Seq<u8>, limit: nat)
    requires
        leb128(n).len() <= limit,
    ensures
        leb128_prefix(leb128(n) + rest, limit) == Some((n, leb128(n).len())),
    decreases n,
{
    lemma_leb128_len(n);
    let s = leb128(n) + rest;
    if n >= 128 {
        lemma_leb128_len(n / 128);
        lemma_prefix_round_trip(n / 128, rest, (limit - 1) as nat);
        assert(s.drop_first() == leb128(n / 128) + rest);
        assert(s[0] == (n % 128 + 128) as u8);
    } else {
        assert(s[0] == n as u8);
    }
}

/// Whatever a successful read took is exactly the minimal encoding of the
/// value it gave.
pub proof fn lemma_prefix_is_encoding(s: Seq<u8>, limit: nat)
    requires
        leb128_prefix(s, limit) is Some,
    ensures
        ({
            let (v, k) = leb128_prefix(s, limit).unwrap();
            k <= s.len() && k <= limit && s.subrange(0, k as int) == leb128(v)
        }),
    decreases limit,
{
    if s[0] >= 128 {
        let t = s.drop_first();
        lemma_prefix_is_encoding(t, (limit - 1) as nat);
        let (w, j) = leb128_prefix(t, (limit - 1) as nat).unwrap();
        let v = ((s[0] - 128) + 128 * w) as nat;
        assert(v >= 128);
        assert(v % 128 == s[0] - 128 && v / 128 == w) by (nonlinear_arith)
            requires v == (s[0] - 128) + 128 * w, 0 <= s[0] - 128 < 128;
        assert(s.subrange(0, j + 1 as int) == seq![s[0]] + t.subrange(0, j as int));
    } else {
        assert(s.subrange(0, 1) == seq![s[0]]);
    }
}

/// Appends the minimal LEB128 encoding of `n` to `out`.
pub fn put_varint(out: &mut Vec<u8>, n: u32)
    ensures
        final(out)@ == old(out)@ + leb128(n as nat),
{
    let mut rest: u32 = n;
    let ghost start = out@;
    while rest >= 128
        invariant
            start + leb128(n as nat) == out@ + leb128(rest as nat),
        decreases rest,
    {
        let ghost before = out@;
        out.push((rest % 128 + 128) as u8);
        proof {
            assert(leb128(rest as nat) == seq![(rest % 128 + 128) as u8] + leb128((rest / 128) as nat));
            assert(before + leb128(rest as nat) == out@ + leb128((rest / 128) as nat));
        }
        rest = rest / 128;
    }
    out.push(rest as u8);
    proof {
        assert(leb128(rest as nat) == seq![rest as u8]);
    }
}

/// The number of bytes that the minimal LEB128 encoding of `n` takes.
pub fn varint_len(n: u32) -> (r: usize)
    ensures
        r == leb128(n as nat).len(),
        1 <= r <= MAX_VARINT_LEN,
{
    proof {
        lemma_leb128_len(n as nat);
    }
    let mut rest: u32 = n;
    let mut len: usize = 1;
    while rest >= 128
        invariant
            len + leb128(rest as nat).len() == leb128(n as nat).len() + 1,
            leb128(n as nat).len() <= 5,
            1 <= len,
        decreases rest,
    {
        proof {
            lemma_leb128_len(rest as nat);
        }
        rest = rest / 128;
        len = len + 1;
    }
    len
}

/// Reads a length field from `buf` at `pos`: exactly what `length_field`
/// gives for the bytes from `pos` on.
pub fn get_varint(buf: &[u8], pos: usize) -> (r: Option<(u32, usize)>)
    requires
        pos <= buf@.len(),
    ensures
        match length_field(buf@.subrange(pos as int, buf@.len() as int)) {
            Some((v, k)) => r == Some((v as u32, k as usize)),
            None => r is None,
        },
        r matches Some((v, k)) ==> 1 <= k <= MAX_VARINT_LEN && pos + k <= buf@.len()
            && length_field(buf@.subrange(pos as int, buf@.len() as int)) == Some((v as nat, k as nat)),
        r is None ==> length_field(buf@.subrange(pos as int, buf@.len() as int)) is None,
{
    proof {
        let s = buf@.subrange(pos as int, buf@.len() as int);
        if leb128_prefix(s, MAX_VARINT_LEN as nat) is Some {
            lemma_prefix_is_encoding(s, MAX_VARINT_LEN as nat);
            lemma_prefix_len_pos(s, MAX_VARINT_LEN as nat);
        }
    }
    match get_varint_limited(buf, pos, MAX_VARINT_LEN) {
        Some((v, k)) => {
            proof {
                assert(pow128(5) == 34359738368) by {
                    reveal_with_fuel(pow128, 6);
                }
            }
            if v <= 0xffff_ffff {
                Some((v as u32, k))
            } else {
                None
            }
        },
        None => None,
    }
}

fn get_varint_limited(buf: &[u8], pos: usize, limit: usize) -> (r: Option<(u64, usize)>)
    requires
        pos <= buf@.len(),
        limit <= MAX_VARINT_LEN,
    ensures
        match leb128_prefix(buf@.subrange(pos as int, buf@.len() as int), limit as nat) {
            Some((v, k)) => r == Some((v as u64, k as usize)) && v < pow128(limit as nat) && k <= limit,
            None => r is None,
        },
    decreases limit,
{
    let ghost s = buf@.subrange(pos as int, buf@.len() as int);
    if limit == 0 || pos == buf.len() {
        return None;
    }
    let b = buf[pos];
    assert(s[0] == b);
    if b < 128 {
        proof {
            lemma_pow128_pos(limit as nat);
        }
        return Some((b as u64, 1));
    }
    assert(s.drop_first() == buf@.subrange(pos + 1, buf@.len() as int));
    assert(leb128_prefix(s, limit as nat) == match leb128_prefix(s.drop_first(), (limit - 1) as nat) {
        Some((v, k)) => if v > 0 {
            Some((((s[0] - 128) + 128 * v) as nat, k + 1))
        } else {
            None
        },
        None => None,
    });
    let inner = get_varint_limited(buf, pos + 1, limit - 1);
    match inner {
        Some((w, k)) => {
            proof {
                lemma_pow128_small((limit - 1) as nat);
            }
            assert(leb128_prefix(s.drop_first(), (limit - 1) as nat) == Some((w as nat, k as nat)));
            if w > 0 {
                proof {
                    lemma_step(b, w as nat, (limit - 1) as nat);
                }
                let v: u64 = (b - 128) as u64 + 128 * w;
                assert(leb128_prefix(s, limit as nat) == Some((v as nat, (k + 1) as nat)));
                Some((v, k + 1))
            } else {
                assert(leb128_prefix(s, limit as nat) is None);
                None
            }
        },
        None => {
            assert(leb128_prefix(s.drop_first(), (limit - 1) as nat) is None);
            assert(leb128_prefix(s, limit as nat) is None);
            None
        },
    }
}

proof fn lemma_pow128_small(n: nat)
    requires
        n <= 4,
    ensures
        pow128(n) <= 268435456,
{
    lemma_pow128_mono(n, 4);
    assert(pow128(4) == 268435456) by {
        reveal_with_fuel(pow128, 5);
    }
}

proof fn lemma_step(b: u8, w: nat, n: nat)
    requires
        128 <= b,
        w < pow128(n),
        n <= 4,
    ensures
        (b - 128) + 128 * w < pow128(n + 1),
        (b - 128) + 128 * w < 34359738368,
{
    assert(pow128(n + 1) == 128 * pow128(n));
    lemma_pow128_mono(n, 4);
    assert(pow128(4) == 268435456) by {
        reveal_with_fuel(pow128, 5);
    }
    assert((b - 128) + 128 * w < pow128(n + 1)) by (nonlinear_arith)
        requires
            w < pow128(n),
            pow128(n + 1) == 128 * pow128(n),
            0 <= b - 128 < 128;
}

proof fn lemma_prefix_len_pos(s: Seq<u8>, limit: nat)
    requires
        leb128_prefix(s, limit) is Some,
    ensures
        leb128_prefix(s, limit).unwrap().1 >= 1,
    decreases limit,
{
    if s[0] >= 128 {
        lemma_prefix_len_pos(s.drop_first(), (limit - 1) as nat);
    }
}

pub open spec fn pow128(n: nat) -> nat
    decreases n,
{
    if n == 0 {
        1
    } else {
        128 * pow128((n - 1) as nat)
    }
}

proof fn lemma_pow128_pos(n: nat)
    ensures
        pow128(n) >= 1,
    decreases n,
{
    if n > 0 {
        lemma_pow128_pos((n - 1) as nat);
    }
}

proof fn lemma_pow128_mono(a: nat, b: nat)
    requires
        a <= b,
    ensures
        pow128(a) <= pow128(b),
    decreases b,
{
    lemma_pow128_pos(b);
    if a < b {
        lemma_pow128_mono(a, (b - 1) as nat);
    }
}

} // verus!
