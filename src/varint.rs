use vstd::prelude::*;

use crate::error::ProtocolError;

verus! {

/// `128^k`: the weight of the `k`-th seven-bit group of a varint.
pub open spec fn pow128(k: nat) -> nat
    decreases k,
{
    if k == 0 {
        1
    } else {
        128 * pow128((k - 1) as nat)
    }
}

/// The minimal varint encoding of `v`: seven bits per byte, least significant
/// group first, the high bit set on every byte but the last.
pub open spec fn varint_encoding(v: nat) -> Seq<u8>
    decreases v,
{
    if v < 128 {
        seq![v as u8]
    } else {
        seq![(v % 128 + 128) as u8] + varint_encoding(v / 128)
    }
}

/// The number that the bytes of one varint stand for, least significant
/// group first; the high bit of each byte is ignored.
pub open spec fn varint_value(s: Seq<u8>) -> nat
    decreases s.len(),
{
    if s.len() == 0 {
        0
    } else {
        varint_value(s.drop_last()) + (s.last() % 128) as nat * pow128((s.len() - 1) as nat)
    }
}

/// How the start of a byte sequence reads as a varint.
pub enum VarintScan {
    /// The varint ends after this many bytes (one to five).
    Ends(nat),
    /// The bytes stop before the varint ends.
    Short,
    /// Five bytes all ask for more: longer than a 32-bit varint may be.
    TooLong,
}

pub open spec fn scan_from(s: Seq<u8>, i: nat) -> VarintScan
    decreases 5 - i,
{
    if i >= 5 {
        VarintScan::TooLong
    } else if i >= s.len() {
        VarintScan::Short
    } else if s[i as int] < 128 {
        VarintScan::Ends(i + 1)
    } else {
        scan_from(s, i + 1)
    }
}

/// Where the varint at the start of `s` ends, if it does.
pub open spec fn varint_scan(s: Seq<u8>) -> VarintScan {
    scan_from(s, 0)
}

/// The `i32` whose two's complement bits are the low 32 bits of `v`.
pub open spec fn wrap_i32(v: nat) -> int {
    let low = v % 0x1_0000_0000;
    if low >= 0x8000_0000 {
        low - 0x1_0000_0000
    } else {
        low as int
    }
}

/// What decoding a 32-bit varint at the start of `s` gives: its value and the
/// number of bytes it took, or `MalformedVarint`.
pub open spec fn decode_varint(s: Seq<u8>) -> Result<(int, nat), ProtocolError> {
    match varint_scan(s) {
        VarintScan::Ends(n) => Ok((wrap_i32(varint_value(s.take(n as int))), n)),
        _ => Err(ProtocolError::MalformedVarint),
    }
}

proof fn lemma_value_step(s: Seq<u8>, i: int)
    requires
        0 <= i < s.len(),
    ensures
        varint_value(s.take(i + 1)) == varint_value(s.take(i)) + (s[i] % 128) as nat * pow128(
            i as nat,
        ),
{
    assert(s.take(i + 1).drop_last() =~= s.take(i));
}

pub(crate) proof fn lemma_scan_prefix(s: Seq<u8>, i: nat)
    requires
        i <= 5,
        i <= s.len(),
        forall|j: int| 0 <= j < i ==> s[j] >= 128,
    ensures
        scan_from(s, 0) == scan_from(s, i),
    decreases i,
{
    if i > 0 {
        lemma_scan_prefix(s, (i - 1) as nat);
    }
}

fn wrap_to_i32(v: u64) -> (r: i32)
    ensures
        r as int == wrap_i32(v as nat),
{
    let low: u64 = v % 0x1_0000_0000;
    if low >= 0x8000_0000 {
        (low as i64 - 0x1_0000_0000) as i32
    } else {
        low as i32
    }
}

/// Reads the varint that starts at `buf[start]`, returning its value and the
/// number of bytes it took.
pub fn read_varint(buf: &[u8], start: usize) -> (r: Result<(i32, usize), ProtocolError>)
    requires
        start <= buf@.len(),
    ensures
        match decode_varint(buf@.skip(start as int)) {
            Ok((v, n)) => r is Ok && r->Ok_0.0 == v && r->Ok_0.1 == n,
            Err(e) => r == Err::<(i32, usize), ProtocolError>(e),
        },
        r is Ok ==> 1 <= r->Ok_0.1 <= buf@.len() - start,
{
    let ghost s = buf@.skip(start as int);
    let mut acc: u64 = 0;
    let mut mult: u64 = 1;
    let mut i: usize = 0;
    proof {
        assert(s.take(0) =~= Seq::<u8>::empty());
    }
    loop
        invariant
            i < 5,
            start <= buf@.len(),
            s == buf@.skip(start as int),
            forall|j: int| 0 <= j < i ==> s[j] >= 128,
            i <= s.len(),
            acc == varint_value(s.take(i as int)),
            mult == pow128(i as nat),
            acc < mult,
        decreases 5 - i,
    {
        proof {
            lemma_scan_prefix(s, i as nat);
        }
        if i >= buf.len() - start {
            return Err(ProtocolError::MalformedVarint);
        }
        let b: u8 = buf[start + i];
        proof {
            lemma_value_step(s, i as int);
            assert(pow128(i as nat + 1) == 128 * pow128(i as nat));
            reveal_with_fuel(pow128, 5);
            assert(pow128(4) == 268435456);
            assert(mult <= 268435456) by {
                lemma_pow128_mono(i as nat, 4);
            }
            assert((b % 128) as nat * mult <= 127 * mult) by (nonlinear_arith)
                requires
                    b % 128 <= 127,
            ;
        }
        acc = acc + (b % 128) as u64 * mult;
        if b < 128 {
            proof {
                assert(scan_from(s, i as nat) == VarintScan::Ends(i as nat + 1));
            }
            return Ok((wrap_to_i32(acc), i + 1));
        }
        if i == 4 {
            proof {
                assert(scan_from(s, 4) == scan_from(s, 5));
            }
            return Err(ProtocolError::MalformedVarint);
        }
        i = i + 1;
        mult = mult * 128;
    }
}

proof fn lemma_pow128_mono(a: nat, b: nat)
    requires
        a <= b,
    ensures
        pow128(a) <= pow128(b),
    decreases b,
{
    if a < b {
        lemma_pow128_mono(a, (b - 1) as nat);
    }
}

/// A value below `128^k` takes at most `k` bytes.
pub proof fn lemma_encoding_len(v: nat, k: nat)
    requires
        k >= 1,
        v < pow128(k),
    ensures
        varint_encoding(v).len() <= k,
    decreases k,
{
    if v >= 128 {
        assert(k >= 2) by {
            if k == 1 {
                assert(pow128(1) == 128) by {
                    reveal_with_fuel(pow128, 2);
                }
            }
        }
        assert(v / 128 < pow128((k - 1) as nat)) by (nonlinear_arith)
            requires
                v < 128 * pow128((k - 1) as nat),
        ;
        lemma_encoding_len(v / 128, (k - 1) as nat);
    }
}

/// Appends the minimal varint encoding of `val` to `w`, returning how many
/// bytes were written. The protocol has no negative varints.
pub fn write_varint(w: &mut Vec<u8>, val: i64) -> (n: usize)
    requires
        val >= 0,
    ensures
        final(w)@ == old(w)@ + varint_encoding(val as nat),
        n == varint_encoding(val as nat).len(),
{
    let mut v: u64 = val as u64;
    let mut count: usize = 0;
    proof {
        reveal_with_fuel(pow128, 10);
        assert(pow128(9) == 0x8000_0000_0000_0000);
        lemma_encoding_len(val as nat, 9);
    }
    loop
        invariant
            w@ + varint_encoding(v as nat) == old(w)@ + varint_encoding(val as nat),
            count + varint_encoding(v as nat).len() == varint_encoding(val as nat).len(),
            varint_encoding(val as nat).len() <= 9,
        decreases v,
    {
        if v < 128 {
            w.push(v as u8);
            return count + 1;
        }
        let ghost before = w@;
        w.push((v % 128 + 128) as u8);
        proof {
            assert(w@ + varint_encoding((v / 128) as nat) =~= before + varint_encoding(v as nat));
        }
        v = v / 128;
        count = count + 1;
    }
}

proof fn lemma_value_cons(b: u8, t: Seq<u8>)
    ensures
        varint_value(seq![b] + t) == (b % 128) as nat + 128 * varint_value(t),
    decreases t.len(),
{
    let u = seq![b] + t;
    if t.len() == 0 {
        assert(u.drop_last() =~= Seq::<u8>::empty());
        assert(u.last() == b);
        assert(pow128(0) == 1);
        assert(varint_value(u.drop_last()) == 0);
        assert(varint_value(t) == 0);
        assert(varint_value(u) == varint_value(u.drop_last()) + (u.last() % 128) as nat * pow128(0));
        assert((u.last() % 128) as nat * 1 == (u.last() % 128) as nat);
        assert(varint_value(u) == (b % 128) as nat);
    } else {
        assert(u.drop_last() =~= seq![b] + t.drop_last());
        assert(u.last() == t.last());
        lemma_value_cons(b, t.drop_last());
        let x = varint_value(t.drop_last());
        let d = (t.last() % 128) as nat;
        let p = pow128((t.len() - 1) as nat);
        assert(pow128(t.len()) == 128 * p);
        assert(d * (128 * p) + 128 * x == 128 * (x + d * p)) by (nonlinear_arith);
        assert(varint_value(t) == x + d * p);
        assert(varint_value(u) == varint_value(u.drop_last()) + d * pow128(t.len()));
        assert(varint_value(seq![b] + t.drop_last()) == (b % 128) as nat + 128 * x);
        assert(varint_value(u) == (b % 128) as nat + 128 * x + d * (128 * p));
        assert(varint_value(u) == (b % 128) as nat + 128 * varint_value(t));
    }
}

pub(crate) proof fn lemma_encoding_shape(v: nat)
    ensures
        varint_encoding(v).len() >= 1,
        varint_encoding(v).last() < 128,
        forall|j: int| 0 <= j < varint_encoding(v).len() - 1 ==> varint_encoding(v)[j] >= 128,
    decreases v,
{
    if v >= 128 {
        lemma_encoding_shape(v / 128);
        let e = varint_encoding(v);
        let t = varint_encoding(v / 128);
        assert forall|j: int| 0 <= j < e.len() - 1 implies e[j] >= 128 by {
            if j > 0 {
                assert(e[j] == t[j - 1]);
            }
        }
    }
}

/// Decoding reads back every number that encoding wrote: the value of the
/// encoding of `v` is `v`, for every non-negative `v` (so for every `i64` that
/// the protocol writes).
pub proof fn lemma_varint_value_of_encoding(v: nat)
    ensures
        varint_value(varint_encoding(v)) == v,
    decreases v,
{
    if v < 128 {
        assert(seq![v as u8].drop_last() =~= Seq::<u8>::empty());
        assert(pow128(0) == 1);
        let e = seq![v as u8];
        assert(varint_value(e.drop_last()) == 0);
        assert(varint_value(e) == varint_value(e.drop_last()) + (e.last() % 128) as nat * pow128(0));
    } else {
        lemma_varint_value_of_encoding(v / 128);
        lemma_value_cons((v % 128 + 128) as u8, varint_encoding(v / 128));
        assert(((v % 128 + 128) as u8) % 128 == v % 128);
        assert(v % 128 + 128 * (v / 128) == v);
    }
}

/// Decoding the encoding of any 32-bit pattern `v`, whatever bytes follow
/// it, gives the `i32` with those bits and the length of the encoding.
pub proof fn lemma_varint_bits_round_trip(v: nat, rest: Seq<u8>)
    requires
        v <= u32::MAX,
    ensures
        decode_varint(varint_encoding(v) + rest) == Ok::<(int, nat), ProtocolError>(
            (wrap_i32(v), varint_encoding(v).len()),
        ),
{
    let e = varint_encoding(v);
    let s = e + rest;
    reveal_with_fuel(pow128, 6);
    lemma_encoding_len(v, 5);
    lemma_encoding_shape(v);
    lemma_scan_prefix(s, (e.len() - 1) as nat);
    assert(s[e.len() - 1] == e.last());
    assert(s.take(e.len() as int) =~= e);
    lemma_varint_value_of_encoding(v);
}

/// Round trip of a 32-bit varint: for every non-negative `i32` value `v`,
/// decoding its encoding, whatever bytes follow it, gives `v` back together
/// with the length of the encoding.
pub proof fn lemma_varint_round_trip(v: nat, rest: Seq<u8>)
    requires
        v <= i32::MAX,
    ensures
        decode_varint(varint_encoding(v) + rest) == Ok::<(int, nat), ProtocolError>(
            (v as int, varint_encoding(v).len()),
        ),
{
    lemma_varint_bits_round_trip(v, rest);
}

/// Five bytes that each ask for another one make no 32-bit varint: the sixth
/// byte is never read.
pub proof fn lemma_varint_too_long(s: Seq<u8>)
    requires
        s.len() >= 5,
        forall|j: int| 0 <= j < 5 ==> s[j] >= 128,
    ensures
        decode_varint(s) == Err::<(int, nat), ProtocolError>(ProtocolError::MalformedVarint),
{
    lemma_scan_prefix(s, 5);
}

} // verus!
