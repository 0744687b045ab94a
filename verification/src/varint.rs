//! Unsigned LEB128 varints as PMTiles directories store them: seven bits per
//! byte, least significant group first, the high bit marking that another byte
//! follows.

use vstd::prelude::*;
use crate::error::PmTilesError;

verus! {

/// 2^64, the modulus of `u64` arithmetic.
pub open spec fn two_pow_64() -> nat {
    0x1_0000_0000_0000_0000
}

/// The longest varint a reader accepts, in bytes.
pub open spec fn max_varint_len() -> nat {
    10
}

/// Whether a byte announces that another byte follows.
pub open spec fn continues(b: u8) -> bool {
    b >= 128
}

/// The seven value bits of a byte.
pub open spec fn payload(b: u8) -> nat {
    (b % 128) as nat
}

/// 128^k.
pub open spec fn pow128(k: nat) -> nat
    decreases k,
{
    if k == 0 {
        1
    } else {
        128 * pow128((k - 1) as nat)
    }
}

/// The number whose base-128 digits, least significant first, are the
/// payloads of the first `n` bytes of `s`.
pub open spec fn group_sum(s: Seq<u8>, n: nat) -> nat
    decreases n,
{
    if n == 0 {
        0
    } else {
        group_sum(s, (n - 1) as nat) + payload(s[n - 1]) * pow128((n - 1) as nat)
    }
}

/// A varint of `n` bytes starts `s`: its last byte is the first one that does
/// not continue, and it is no longer than ten bytes.
pub open spec fn varint_ends_at(s: Seq<u8>, n: nat) -> bool {
    &&& 1 <= n <= max_varint_len()
    &&& n <= s.len()
    &&& !continues(s[n - 1])
    &&& forall|j: int| 0 <= j < n - 1 ==> continues(#[trigger] s[j])
}

/// The length of the varint that starts `s`, if a well-formed one does.
pub open spec fn varint_size(s: Seq<u8>) -> Option<nat> {
    if exists|n: nat| varint_ends_at(s, n) {
        Some(choose|n: nat| varint_ends_at(s, n))
    } else {
        None
    }
}

/// The varint at the start of `s`: its value, with the bits past the 64th
/// dropped, and its length in bytes.
pub open spec fn decode_varint(s: Seq<u8>) -> Option<(u64, nat)> {
    match varint_size(s) {
        Some(n) => Some(((group_sum(s, n) % two_pow_64()) as u64, n)),
        None => None,
    }
}

/// The bytes of `data` from position `p` on (none where `p` lies past the end).
pub open spec fn tail(data: Seq<u8>, p: int) -> Seq<u8> {
    if 0 <= p <= data.len() {
        data.subrange(p, data.len() as int)
    } else {
        Seq::empty()
    }
}

/// The shortest varint encoding of `v`.
pub open spec fn encode_varint(v: nat) -> Seq<u8>
    decreases v,
{
    if v < 128 {
        seq![v as u8]
    } else {
        seq![(v % 128 + 128) as u8] + encode_varint(v / 128)
    }
}

/// At most one length ends a varint.
pub proof fn lemma_varint_end_unique(s: Seq<u8>, n1: nat, n2: nat)
    requires
        varint_ends_at(s, n1),
        varint_ends_at(s, n2),
    ensures
        n1 == n2,
{
    if n1 < n2 {
        assert(continues(s[n1 - 1]));
    } else if n2 < n1 {
        assert(continues(s[n2 - 1]));
    }
}

/// Where a varint ends, `varint_size` names that length.
pub proof fn lemma_varint_size_is(s: Seq<u8>, n: nat)
    requires
        varint_ends_at(s, n),
    ensures
        varint_size(s) == Some(n),
{
    let m = choose|m: nat| varint_ends_at(s, m);
    lemma_varint_end_unique(s, m, n);
}

/// The powers of 128 that bound a varint's groups.
pub proof fn lemma_pow128_facts()
    ensures
        pow128(9) == 0x8000_0000_0000_0000,
{
    reveal_with_fuel(pow128, 10);
}

/// 128^k is at least 1.
pub proof fn lemma_pow128_positive(k: nat)
    ensures
        pow128(k) >= 1,
    decreases k,
{
    if k > 0 {
        lemma_pow128_positive((k - 1) as nat);
    }
}

/// 128^k grows with k.
pub proof fn lemma_pow128_monotone(a: nat, b: nat)
    requires
        a <= b,
    ensures
        pow128(a) <= pow128(b),
    decreases b,
{
    if a < b {
        lemma_pow128_monotone(a, (b - 1) as nat);
        lemma_pow128_positive((b - 1) as nat);
    }
}

/// Bytes after a varint do not change it.
pub proof fn lemma_decode_extend(s: Seq<u8>, extra: Seq<u8>)
    ensures
        decode_varint(s) is Some ==> decode_varint(s + extra) == decode_varint(s),
{
    if let Some((v, n)) = decode_varint(s) {
        let t = s + extra;
        assert(varint_ends_at(s, n));
        assert forall|j: int| 0 <= j < n - 1 implies continues(#[trigger] t[j]) by {
            assert(t[j] == s[j]);
            assert(continues(s[j]));
        }
        assert(t[n - 1] == s[n - 1]);
        assert(varint_ends_at(t, n));
        lemma_varint_size_is(t, n);
        lemma_group_sum_prefix(s, t, n);
    }
}

/// The tail of `s` followed by `extra` is the tail of `s + extra`.
pub proof fn lemma_tail_extend(s: Seq<u8>, extra: Seq<u8>, p: int)
    requires
        0 <= p <= s.len(),
    ensures
        tail(s + extra, p) == tail(s, p) + extra,
{
    assert(tail(s + extra, p) =~= tail(s, p) + extra);
}

/// The first `n` payloads sum to less than 128^n.
pub proof fn lemma_group_sum_bound(s: Seq<u8>, n: nat)
    ensures
        group_sum(s, n) < pow128(n),
    decreases n,
{
    if n > 0 {
        let k = (n - 1) as nat;
        lemma_group_sum_bound(s, k);
        let p = payload(s[k as int]);
        let q = pow128(k);
        assert(group_sum(s, k) + p * q < 128 * q) by (nonlinear_arith)
            requires
                group_sum(s, k) < q,
                p <= 127,
        ;
    }
}

/// `group_sum` reads only the first `n` bytes.
pub proof fn lemma_group_sum_prefix(s1: Seq<u8>, s2: Seq<u8>, n: nat)
    requires
        n <= s1.len(),
        n <= s2.len(),
        forall|j: int| 0 <= j < n ==> s1[j] == s2[j],
    ensures
        group_sum(s1, n) == group_sum(s2, n),
    decreases n,
{
    if n > 0 {
        lemma_group_sum_prefix(s1, s2, (n - 1) as nat);
    }
}

/// Peeling off the first byte: its payload plus 128 times the rest.
pub proof fn lemma_group_sum_cons(b: u8, t: Seq<u8>, n: nat)
    requires
        n <= t.len(),
    ensures
        group_sum(seq![b] + t, n + 1) == payload(b) + 128 * group_sum(t, n),
    decreases n,
{
    let s = seq![b] + t;
    if n == 0 {
        assert(s[0] == b);
        assert(pow128(0) == 1);
        assert(group_sum(s, 1) == group_sum(s, 0) + payload(s[0]) * pow128(0));
        assert(group_sum(t, 0) == 0);
    } else {
        let k = (n - 1) as nat;
        lemma_group_sum_cons(b, t, k);
        assert(s[n as int] == t[k as int]);
        let g = group_sum(t, k);
        let p = payload(t[k as int]);
        let q = pow128(k);
        assert(group_sum(s, n + 1) == group_sum(s, n) + p * (128 * q));
        assert(group_sum(t, n) == g + p * q);
        assert(payload(b) + 128 * g + p * (128 * q) == payload(b) + 128 * (g + p * q))
            by (nonlinear_arith);
    }
}

/// The facts about `encode_varint(v)` that decoding needs.
pub proof fn lemma_encode_shape(v: nat, k: nat)
    requires
        1 <= k,
        v < pow128(k),
    ensures
        1 <= encode_varint(v).len() <= k,
        !continues(encode_varint(v).last()),
        forall|j: int|
            0 <= j < encode_varint(v).len() - 1 ==> continues(#[trigger] encode_varint(v)[j]),
        group_sum(encode_varint(v), encode_varint(v).len()) == v,
    decreases v,
{
    let e = encode_varint(v);
    if v < 128 {
        assert(pow128(0) == 1);
        assert(e =~= seq![v as u8]);
        assert(payload(v as u8) == v);
        assert(group_sum(e, 0) == 0);
        assert(group_sum(e, 1) == group_sum(e, 0) + payload(e[0]) * pow128(0));
    } else {
        let t = encode_varint(v / 128);
        assert(k >= 2) by {
            if k == 1 {
                assert(pow128(1) == 128 * pow128(0));
                assert(pow128(0) == 1);
            }
        }
        assert(v / 128 < pow128((k - 1) as nat)) by {
            assert(pow128(k) == 128 * pow128((k - 1) as nat));
        }
        lemma_encode_shape(v / 128, (k - 1) as nat);
        let b = (v % 128 + 128) as u8;
        assert(e == seq![b] + t);
        assert(e.last() == t.last());
        assert forall|j: int| 0 <= j < e.len() - 1 implies continues(#[trigger] e[j]) by {
            if j > 0 {
                assert(e[j] == t[j - 1]);
            }
        }
        lemma_group_sum_cons(b, t, t.len());
        assert(payload(b) == v % 128);
        assert(e.len() == t.len() + 1);
        assert(group_sum(e, e.len()) == v % 128 + 128 * (v / 128));
    }
}

/// Decoding the encoding of a 64-bit value gives the value back, whatever
/// follows it.
pub proof fn lemma_varint_roundtrip(v: u64, rest: Seq<u8>)
    ensures
        decode_varint(encode_varint(v as nat) + rest) == Some((v, encode_varint(v as nat).len())),
        encode_varint(v as nat).len() <= max_varint_len(),
{
    let e = encode_varint(v as nat);
    let s = e + rest;
    lemma_pow128_facts();
    lemma_encode_shape(v as nat, 10);
    let n = e.len();
    assert forall|j: int| 0 <= j < n implies s[j] == e[j] by {}
    assert(varint_ends_at(s, n)) by {
        assert(s[n - 1] == e.last());
        assert forall|j: int| 0 <= j < n - 1 implies continues(#[trigger] s[j]) by {
            assert(s[j] == e[j]);
        }
    }
    lemma_varint_size_is(s, n);
    lemma_group_sum_prefix(s, e, n);
}

/// A decoded varint takes between one byte and the rest of the input.
pub proof fn lemma_decode_len(s: Seq<u8>)
    ensures
        decode_varint(s) matches Some((v, n)) ==> 1 <= n <= s.len() && n <= max_varint_len(),
{
    if let Some(n) = varint_size(s) {
        assert(varint_ends_at(s, n));
    }
}

/// Dropping `a` bytes and then `c` more drops `a + c`.
pub proof fn lemma_tail_tail(data: Seq<u8>, a: int, c: int)
    requires
        0 <= a <= data.len(),
        0 <= c <= data.len() - a,
    ensures
        tail(tail(data, a), c) == tail(data, a + c),
{
    assert(tail(tail(data, a), c) =~= tail(data, a + c));
}

/// Reads the varint that starts at `*p` in `data` and moves `*p` past it.
pub fn read_varint(data: &[u8], p: &mut usize) -> (res: Result<u64, PmTilesError>)
    ensures
        match decode_varint(tail(data@, *old(p) as int)) {
            Some((v, n)) => res == Ok::<u64, PmTilesError>(v) && *final(p) == *old(p) + n,
            None => res == Err::<u64, PmTilesError>(PmTilesError::CorruptDirectory),
        },
{
    let ghost start = *p as int;
    let ghost s = tail(data@, start);
    let mut result: u64 = 0;
    let mut pow: u64 = 1;
    let mut i: usize = 0;
    proof {
        lemma_pow128_facts();
    }
    loop
        invariant
            start == *old(p) as int,
            s == tail(data@, start),
            i <= 9,
            *p == start + i,
            start <= data@.len() ==> start + i <= data@.len(),
            start <= data@.len() ==> s.len() == data@.len() - start,
            start > data@.len() ==> s.len() == 0 && i == 0,
            forall|j: int| 0 <= j < i ==> s[j] == data@[start + j],
            forall|j: int| 0 <= j < i ==> continues(#[trigger] s[j]),
            pow == pow128(i as nat),
            pow <= 0x8000_0000_0000_0000,
            result == group_sum(s, i as nat),
            pow128(9) == 0x8000_0000_0000_0000,
        decreases 10 - i,
    {
        if *p >= data.len() {
            proof {
                assert(s.len() <= i);
                assert forall|n: nat| !varint_ends_at(s, n) by {
                    if varint_ends_at(s, n) {
                        assert(continues(s[n - 1]));
                    }
                }
            }
            return Err(PmTilesError::CorruptDirectory);
        }
        let byte = data[*p];
        proof {
            assert(s[i as int] == byte);
        }
        *p = *p + 1;
        let bits = byte % 128;
        proof {
            lemma_group_sum_bound(s, i as nat);
        }
        let ghost next = group_sum(s, (i + 1) as nat);
        assert(next == result + payload(byte) * pow);
        if i == 9 {
            let low = (bits % 2) as u64;
            proof {
                let g = result as int;
                let b = bits as int;
                assert((g + b * 0x8000_0000_0000_0000) % 0x1_0000_0000_0000_0000 == g + (b % 2)
                    * 0x8000_0000_0000_0000) by (nonlinear_arith)
                    requires
                        0 <= g < 0x8000_0000_0000_0000,
                        0 <= b < 128,
                ;
            }
            result = result + low * 0x8000_0000_0000_0000;
        } else {
            proof {
                assert(result + (bits as int) * pow < 128 * pow) by (nonlinear_arith)
                    requires
                        result < pow,
                        bits < 128,
                ;
                lemma_pow128_monotone((i + 1) as nat, 9);
            }
            result = result + (bits as u64) * pow;
        }
        if byte < 128 {
            proof {
                assert(varint_ends_at(s, (i + 1) as nat));
                lemma_varint_size_is(s, (i + 1) as nat);
                if i < 9 {
                    assert(next < pow128((i + 1) as nat)) by {
                        lemma_group_sum_bound(s, (i + 1) as nat);
                    }
                    lemma_pow128_monotone((i + 1) as nat, 9);
                }
            }
            return Ok(result);
        }
        if i == 9 {
            proof {
                assert forall|n: nat| !varint_ends_at(s, n) by {
                    if varint_ends_at(s, n) {
                        assert(continues(s[n - 1]));
                    }
                }
            }
            return Err(PmTilesError::CorruptDirectory);
        }
        proof {
            lemma_pow128_monotone((i + 1) as nat, 9);
        }
        pow = pow * 128;
        i = i + 1;
        proof {
            assert(result == group_sum(s, i as nat));
        }
    }
}

/// Appends the shortest varint encoding of `v` to `buf`.
pub fn write_varint(buf: &mut Vec<u8>, v: u64)
    ensures
        final(buf)@ == old(buf)@ + encode_varint(v as nat),
{
    let mut rem = v;
    loop
        invariant
            buf@ + encode_varint(rem as nat) == old(buf)@ + encode_varint(v as nat),
        decreases rem,
    {
        let ghost before = buf@;
        let mut b = (rem % 128) as u8;
        let next = rem / 128;
        if next != 0 {
            b = b + 128;
        }
        buf.push(b);
        if next == 0 {
            assert(encode_varint(rem as nat) == seq![rem as u8]);
            assert(buf@ == before + encode_varint(rem as nat));
            return;
        }
        assert(encode_varint(rem as nat) == seq![b] + encode_varint(next as nat));
        assert(buf@ + encode_varint(next as nat) == before + encode_varint(rem as nat));
        rem = next;
    }
}

} // verus!
