//! Unsigned LEB128: seven payload bits per byte, least significant group
//! first, the high bit set on every byte but the last.

use crate::types::{Error, Offset, Result};
use vstd::prelude::*;

verus! {

/// Message of the error for a read at or past the end of the blob.
pub const MSG_OUT_OF_BOUNDS: &'static str = "offset out of bounds";

/// Message of the error for a LEB128 integer of more than ten bytes.
pub const MSG_LEB128_OVERFLOW: &'static str = "out of bound for LEB128";

/// 128 to the power `k`.
pub open spec fn pow128(k: nat) -> nat
    decreases k,
{
    if k == 0 {
        1
    } else {
        128 * pow128((k - 1) as nat)
    }
}

/// The number whose `k` base-128 digits, least significant first, are the
/// low seven bits of the bytes of `bs` from `off` on.
pub open spec fn leb128_value(bs: Seq<u8>, off: int, k: nat) -> nat
    decreases k,
{
    if k == 0 {
        0
    } else {
        leb128_value(bs, off, (k - 1) as nat) + (bs[off + k - 1] % 128) as nat * pow128(
            (k - 1) as nat,
        )
    }
}

/// Reading from `off` with `i` continuation bytes already passed: the
/// first byte below 128 ends the number. Its value is cut to 64 bits.
pub open spec fn leb128_scan(bs: Seq<u8>, off: Offset, i: nat) -> Result<(u64, u8)>
    decreases 10 - i,
{
    if i >= 10 {
        Err(Error { msg: MSG_LEB128_OVERFLOW, off: (off + i) as u64 })
    } else if off + i >= bs.len() {
        Err(Error { msg: MSG_OUT_OF_BOUNDS, off: (off + i) as u64 })
    } else if bs[off + i] < 128 {
        Ok(((leb128_value(bs, off as int, i + 1) % 0x1_0000_0000_0000_0000) as u64, (i + 1) as u8))
    } else {
        leb128_scan(bs, off, i + 1)
    }
}

/// What reading a LEB128 integer at `off` gives: the value and the number
/// of bytes it takes, or the error.
pub open spec fn leb128_read(bs: Seq<u8>, off: Offset) -> Result<(u64, u8)> {
    leb128_scan(bs, off, 0)
}

/// Powers of 128 up to the tenth fit 70 bits, and up to the ninth 63.
pub proof fn lemma_pow128_bound(k: nat)
    requires
        k <= 10,
    ensures
        0 < pow128(k) <= 0x40_0000_0000_0000_0000,
        k <= 9 ==> pow128(k) <= 0x8000_0000_0000_0000,
    decreases k,
{
    if k > 0 {
        lemma_pow128_bound((k - 1) as nat);
    }
    reveal_with_fuel(pow128, 11);
}

/// A number of `k` digits is below `128^k`.
pub proof fn lemma_leb128_value_bound(bs: Seq<u8>, off: int, k: nat)
    ensures
        leb128_value(bs, off, k) < pow128(k),
    decreases k,
{
    if k > 0 {
        lemma_leb128_value_bound(bs, off, (k - 1) as nat);
        let d = (bs[off + k - 1] % 128) as nat;
        let p = pow128((k - 1) as nat);
        assert(d * p <= 127 * p) by (nonlinear_arith)
            requires
                d <= 127,
        ;
    }
}

/// A number of `k` digits is its lowest digit plus 128 times the number
/// of the digits behind it.
pub proof fn lemma_leb128_value_shift(bs: Seq<u8>, off: int, k: nat)
    requires
        k > 0,
    ensures
        leb128_value(bs, off, k) == (bs[off] % 128) as nat + 128 * leb128_value(
            bs,
            off + 1,
            (k - 1) as nat,
        ),
    decreases k,
{
    if k == 1 {
        assert(pow128(0) == 1);
        assert(leb128_value(bs, off, 0) == 0);
        assert(leb128_value(bs, off + 1, 0) == 0);
        assert(leb128_value(bs, off, 1) == leb128_value(bs, off, 0) + (bs[off + 1 - 1] % 128) as nat
            * pow128(0));
    } else {
        lemma_leb128_value_shift(bs, off, (k - 1) as nat);
        let d = (bs[off + k - 1] % 128) as nat;
        let p = pow128((k - 2) as nat);
        let a = leb128_value(bs, off + 1, (k - 2) as nat);
        let d0 = (bs[off] % 128) as nat;
        assert(pow128((k - 1) as nat) == 128 * p);
        assert(leb128_value(bs, off + 1, (k - 1) as nat) == a + d * p);
        assert(leb128_value(bs, off, (k - 1) as nat) == d0 + 128 * a);
        assert(leb128_value(bs, off, k) == leb128_value(bs, off, (k - 1) as nat) + d * (128 * p));
        assert(128 * (a + d * p) == 128 * a + d * (128 * p)) by (nonlinear_arith);
    }
}

/// The value of `k` digits depends on those `k` bytes only.
pub proof fn lemma_leb128_value_same(a: Seq<u8>, i: int, b: Seq<u8>, j: int, k: nat)
    requires
        forall|x: int| i <= x < i + k ==> #[trigger] a[x] == b[x - i + j],
    ensures
        leb128_value(a, i, k) == leb128_value(b, j, k),
    decreases k,
{
    if k > 0 {
        lemma_leb128_value_same(a, i, b, j, (k - 1) as nat);
    }
}

/// The shape of an encoding: every byte but the last has its high bit
/// set, and the digits spell the number.
pub proof fn lemma_leb128_bytes_shape(n: nat)
    ensures
        leb128_bytes(n).len() >= 1,
        forall|j: int| 0 <= j < leb128_bytes(n).len() - 1 ==> leb128_bytes(n)[j] >= 128,
        leb128_bytes(n)[leb128_bytes(n).len() - 1] < 128,
        leb128_value(leb128_bytes(n), 0, leb128_bytes(n).len()) == n,
    decreases n,
{
    let e = leb128_bytes(n);
    if n < 128 {
        assert(e =~= seq![n as u8]);
        lemma_leb128_value_shift(e, 0, 1);
        assert(leb128_value(e, 1, 0) == 0);
    } else {
        let t = leb128_bytes(n / 128);
        lemma_leb128_bytes_shape(n / 128);
        assert(e =~= seq![(n % 128 + 128) as u8] + t);
        assert forall|j: int| 0 <= j < e.len() - 1 implies e[j] >= 128 by {
            if j > 0 {
                assert(e[j] == t[j - 1]);
            }
        }
        lemma_leb128_value_shift(e, 0, e.len());
        lemma_leb128_value_same(e, 1, t, 0, t.len());
        assert(e[0] % 128 == n % 128);
        assert(leb128_value(e, 0, e.len()) == n % 128 + 128 * (n / 128));
    }
}

/// An encoding of a number below `128^k` has at most `k` bytes.
pub proof fn lemma_leb128_bytes_len(n: nat, k: nat)
    requires
        k >= 1,
        n < pow128(k),
    ensures
        leb128_bytes(n).len() <= k,
    decreases k,
{
    reveal_with_fuel(pow128, 2);
    if n >= 128 {
        if k == 1 {
            assert(false);
        } else {
            lemma_leb128_bytes_len(n / 128, (k - 1) as nat);
        }
    }
}

/// An encoding of a 64-bit number has at most ten bytes.
pub proof fn lemma_leb128_bytes_len_u64(n: u64)
    ensures
        1 <= leb128_bytes(n as nat).len() <= 10,
{
    lemma_leb128_bytes_shape(n as nat);
    assert(pow128(10) == 0x40_0000_0000_0000_0000) by {
        reveal_with_fuel(pow128, 11);
    }
    lemma_leb128_bytes_len(n as nat, 10);
}

/// Reading back an encoded number, wherever its encoding stands in a
/// buffer, gives the number and the length of the encoding.
pub proof fn lemma_leb128_round_trip(n: u64, bs: Seq<u8>, off: Offset)
    requires
        off + leb128_bytes(n as nat).len() <= bs.len(),
        bs.subrange(off as int, off + leb128_bytes(n as nat).len()) == leb128_bytes(n as nat),
    ensures
        leb128_read(bs, off) == Ok::<(u64, u8), Error>((n, leb128_bytes(n as nat).len() as u8)),
{
    let e = leb128_bytes(n as nat);
    let len = e.len();
    lemma_leb128_bytes_len_u64(n);
    lemma_leb128_bytes_shape(n as nat);
    assert forall|x: int| off <= x < off + len implies #[trigger] bs[x] == e[x - off] by {
        assert(bs.subrange(off as int, off + len)[x - off] == bs[x]);
    }
    lemma_leb128_value_same(bs, off as int, e, 0, len);
    lemma_leb128_scan_to_last(bs, off, (len - 1) as nat, 0);
}

/// Scanning passes over continuation bytes.
proof fn lemma_leb128_scan_to_last(bs: Seq<u8>, off: Offset, last: nat, i: nat)
    requires
        i <= last < 10,
        off + last < bs.len(),
        forall|x: int| off <= x < off + last ==> #[trigger] bs[x] >= 128,
    ensures
        leb128_scan(bs, off, i) == leb128_scan(bs, off, last),
    decreases last - i,
{
    if i < last {
        lemma_leb128_scan_to_last(bs, off, last, i + 1);
    }
}

/// Reads a LEB128 integer from `bs` at `off`.
pub fn dec_leb128(bs: &[u8], off: Offset) -> (r: Result<(u64, u8)>)
    ensures
        r == leb128_read(bs@, off),
{
    let mut acc: u128 = 0;
    let mut mult: u128 = 1;
    let mut i: u8 = 0;
    while i < 10
        invariant
            i <= 10,
            mult == pow128(i as nat),
            acc == leb128_value(bs@, off as int, i as nat),
            leb128_read(bs@, off) == leb128_scan(bs@, off, i as nat),
            i > 0 ==> off + i <= bs@.len(),
        decreases 10 - i,
    {
        if off >= bs.len() as u64 || (i as u64) >= bs.len() as u64 - off {
            return Err(Error { msg: MSG_OUT_OF_BOUNDS, off: off + i as u64 });
        }
        let c: u8 = bs[(off + i as u64) as usize];
        let cur: u8 = c % 128;
        proof {
            lemma_pow128_bound(i as nat);
            lemma_pow128_bound((i + 1) as nat);
            lemma_leb128_value_bound(bs@, off as int, i as nat);
            lemma_leb128_value_bound(bs@, off as int, (i + 1) as nat);
            assert(cur as nat * pow128(i as nat) <= 127 * pow128(i as nat)) by (nonlinear_arith)
                requires
                    cur <= 127,
            ;
        }
        acc = acc + (cur as u128) * mult;
        i = i + 1;
        if c < 128 {
            return Ok(((acc % 0x1_0000_0000_0000_0000) as u64, i));
        }
        mult = mult * 128;
    }
    let ghost len = bs.len();
    Err(Error { msg: MSG_LEB128_OVERFLOW, off: off + 10 })
}

/// The LEB128 encoding of `n`.
pub open spec fn leb128_bytes(n: nat) -> Seq<u8>
    decreases n,
{
    if n < 128 {
        seq![n as u8]
    } else {
        seq![(n % 128 + 128) as u8] + leb128_bytes(n / 128)
    }
}

/// Encodes `n` as LEB128 at the front of `buf` and returns how many bytes
/// were used. The rest of `buf` is left as it was.
pub fn enc_leb128(n: u64, buf: &mut [u8]) -> (count: usize)
    requires
        old(buf)@.len() >= 10,
    ensures
        final(buf)@.len() == old(buf)@.len(),
        1 <= count <= 10,
        final(buf)@.subrange(0, count as int) == leb128_bytes(n as nat),
        forall|i: int| count <= i < final(buf)@.len() ==> final(buf)@[i] == old(buf)@[i],
{
    let mut rest: u64 = n;
    let mut count: usize = 0;
    assert(rest <= u64::MAX >> 0u64) by (bit_vector);
    assert(buf@.subrange(0, 0) + leb128_bytes(n as nat) == leb128_bytes(n as nat));
    loop
        invariant
            count < 10,
            buf@.len() == old(buf)@.len(),
            buf@.len() >= 10,
            rest <= u64::MAX >> ((7 * count) as u64),
            leb128_bytes(n as nat) == buf@.subrange(0, count as int) + leb128_bytes(rest as nat),
            forall|i: int| count <= i < buf@.len() ==> buf@[i] == old(buf)@[i],
        decreases rest,
    {
        let c: u8 = (rest % 128) as u8;
        let ghost before = buf@;
        if rest < 128 {
            buf[count] = c;
            count += 1;
            assert(buf@.subrange(0, count as int) =~= before.subrange(0, count - 1) + seq![c]);
            assert(leb128_bytes(rest as nat) =~= seq![c]);
            assert(buf@.subrange(0, count as int) == leb128_bytes(n as nat));
            return count;
        } else {
            let shift: u64 = 7 * (count as u64);
            assert(shift < 63) by {
                assert(u64::MAX >> 63u64 == 1) by (bit_vector);
            }
            assert(rest / 128 <= u64::MAX >> ((shift + 7) as u64)) by (bit_vector)
                requires
                    shift < 63,
                    rest <= u64::MAX >> shift,
            ;
            buf[count] = c + 128;
            count += 1;
            assert(buf@.subrange(0, count as int) =~= before.subrange(0, count - 1) + seq![
                (c + 128) as u8,
            ]);
            assert(leb128_bytes(rest as nat) =~= seq![(c + 128) as u8] + leb128_bytes(
                (rest / 128) as nat,
            ));
            rest = rest / 128;
        }
    }
}

} // verus!
