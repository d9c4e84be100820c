use vstd::prelude::*;
use vstd::arithmetic::div_mod::{lemma_add_mod_noop, lemma_mod_bound};

verus! {

/// The Adler-32 modulus: the largest prime below 65536.
pub const MOD_ADLER: u32 = 65521;

/// The most bytes that can be summed before the 32-bit sums must be reduced.
pub const NMAX: usize = 5552;

/// The two Adler-32 sums before reduction (RFC 1950, 8.2): `A` is 1 plus the sum of the
/// bytes, `B` the sum of the values of `A` after each byte.
pub open spec fn adler_sums(data: Seq<u8>) -> (int, int)
    decreases data.len(),
{
    if data.len() == 0 {
        (1, 0)
    } else {
        let (a, b) = adler_sums(data.drop_last());
        (a + data.last(), b + a + data.last())
    }
}

/// The Adler-32 checksum: `B mod 65521` in the high 16 bits, `A mod 65521` in the low 16.
pub open spec fn spec_adler32(data: Seq<u8>) -> int {
    (adler_sums(data).1 % 65521) * 65536 + adler_sums(data).0 % 65521
}

/// A bound on `b` after `k` bytes of a run that starts with `a` and `b` reduced.
spec fn b_bound(k: int) -> int {
    65520 + 65520 * k + 255 * (k * (k + 1) / 2)
}

proof fn lemma_b_bound(k: int)
    requires
        0 <= k < 5552,
    ensures
        b_bound(k) + 65520 + 255 * (k + 1) == b_bound(k + 1),
        b_bound(k + 1) <= b_bound(5552),
        b_bound(5552) < 0x1_0000_0000,
{
    assert(k * (k + 1) / 2 + (k + 1) == (k + 1) * (k + 2) / 2) by (nonlinear_arith)
        requires
            0 <= k,
    ;
    assert((k + 1) * (k + 2) / 2 <= 5552 * 5553 / 2) by (nonlinear_arith)
        requires
            0 <= k < 5552,
    ;
}

proof fn lemma_adler_step(data: Seq<u8>, i: int)
    requires
        0 <= i < data.len(),
    ensures
        adler_sums(data.subrange(0, i + 1)).0 == adler_sums(data.subrange(0, i)).0 + data[i],
        adler_sums(data.subrange(0, i + 1)).1 == adler_sums(data.subrange(0, i)).1 + adler_sums(
            data.subrange(0, i),
        ).0 + data[i],
{
    assert(data.subrange(0, i + 1).drop_last() =~= data.subrange(0, i));
}

/// The Adler-32 checksum of `data`, reducing the sums every `NMAX` bytes.
pub fn adler32(data: &[u8]) -> (r: u32)
    ensures
        r == spec_adler32(data@),
{
    let mut a: u32 = 1;
    let mut b: u32 = 0;
    let mut start: usize = 0;
    let len = data.len();
    proof {
        assert(data@.subrange(0, 0) =~= Seq::<u8>::empty());
    }
    while start < len
        invariant
            start <= len,
            len == data@.len(),
            a < MOD_ADLER,
            b < MOD_ADLER,
            a == adler_sums(data@.subrange(0, start as int)).0 % 65521,
            b == adler_sums(data@.subrange(0, start as int)).1 % 65521,
        decreases len - start,
    {
        let end = if len - start > NMAX {
            start + NMAX
        } else {
            len
        };
        let mut i = start;
        while i < end
            invariant
                start <= i <= end,
                end <= len,
                end - start <= NMAX,
                len == data@.len(),
                a as int <= 65520 + 255 * (i - start),
                b as int <= b_bound(i - start),
                a as int % 65521 == adler_sums(data@.subrange(0, i as int)).0 % 65521,
                b as int % 65521 == adler_sums(data@.subrange(0, i as int)).1 % 65521,
            decreases end - i,
        {
            let ghost k = i - start;
            let ghost sa = adler_sums(data@.subrange(0, i as int)).0;
            let ghost sb = adler_sums(data@.subrange(0, i as int)).1;
            proof {
                lemma_b_bound(k as int);
                lemma_adler_step(data@, i as int);
                lemma_add_mod_noop(a as int, data@[i as int] as int, 65521);
                lemma_add_mod_noop(sa, data@[i as int] as int, 65521);
            }
            a += data[i] as u32;
            proof {
                lemma_add_mod_noop(b as int, a as int, 65521);
                lemma_add_mod_noop(sb, sa + data@[i as int], 65521);
            }
            b += a;
            i += 1;
        }
        a %= MOD_ADLER;
        b %= MOD_ADLER;
        start = end;
    }
    proof {
        assert(data@.subrange(0, len as int) =~= data@);
    }
    assert((b << 16) | a == b * 65536 + a) by (bit_vector)
        requires
            a < 65536,
            b < 65536,
    ;
    (b << 16) | a
}

} // verus!
