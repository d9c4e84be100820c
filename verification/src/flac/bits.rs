use vstd::prelude::*;
use vstd::arithmetic::power2::{pow2, lemma_pow2_unfold, lemma_pow2_pos, lemma2_to64};
use vstd::bits::lemma_u8_shr_is_div;

verus! {

/// Bit `k` of a byte stream, bits taken from the most significant end of each byte first
/// (the FLAC bit order).
pub open spec fn msb_bit(data: Seq<u8>, k: int) -> nat {
    ((data[k / 8] as nat) / pow2((7 - k % 8) as nat)) % 2
}

/// The number formed by the `n` bits from bit `pos`, the first bit being the most significant.
pub open spec fn msb_value(data: Seq<u8>, pos: int, n: nat) -> nat
    decreases n,
{
    if n == 0 {
        0
    } else {
        2 * msb_value(data, pos, (n - 1) as nat) + msb_bit(data, pos + n - 1)
    }
}

/// The `n`-bit two's complement number whose bits are `v`.
pub open spec fn sign_extend(v: nat, n: nat) -> int {
    if n > 0 && v >= pow2((n - 1) as nat) {
        v - pow2(n)
    } else {
        v as int
    }
}

/// The number of zero bits from `pos` up to the next one bit, and the position after that one
/// bit; `None` when the stream ends first.
pub open spec fn spec_unary(data: Seq<u8>, pos: int) -> Option<(nat, int)>
    decreases 8 * data.len() - pos,
{
    if pos < 0 || pos >= 8 * data.len() {
        None
    } else if msb_bit(data, pos) == 1 {
        Some((0, pos + 1))
    } else {
        match spec_unary(data, pos + 1) {
            Some((q, p)) => Some((q + 1, p)),
            None => None,
        }
    }
}

pub proof fn lemma_msb_value_bound(data: Seq<u8>, pos: int, n: nat)
    ensures
        msb_value(data, pos, n) < pow2(n),
    decreases n,
{
    lemma2_to64();
    if n > 0 {
        lemma_msb_value_bound(data, pos, (n - 1) as nat);
        lemma_pow2_unfold(n);
    }
}

/// Reading `a + b` bits at once gives the first `a` bits shifted up by `b`, plus the next `b`.
pub proof fn lemma_msb_value_split(data: Seq<u8>, pos: int, a: nat, b: nat)
    ensures
        msb_value(data, pos, a + b) == msb_value(data, pos, a) * pow2(b) + msb_value(
            data,
            pos + a,
            b,
        ),
    decreases b,
{
    lemma2_to64();
    if b > 0 {
        lemma_msb_value_split(data, pos, a, (b - 1) as nat);
        lemma_pow2_unfold(b);
        let x = msb_value(data, pos, a);
        let y = msb_value(data, pos + a, (b - 1) as nat);
        let p = pow2((b - 1) as nat);
        let t = msb_bit(data, pos + a + b - 1);
        assert((a + b - 1) as nat == a + (b - 1) as nat);
        assert(msb_value(data, pos, a + b) == 2 * msb_value(data, pos, (a + b - 1) as nat) + t);
        assert(msb_value(data, pos + a, b) == 2 * y + t);
        assert(2 * (x * p + y) == x * (2 * p) + 2 * y) by (nonlinear_arith);
        assert(pow2(b) == 2 * p);
        assert(msb_value(data, pos, a + b) == x * pow2(b) + msb_value(data, pos + a, b));
    } else {
        assert(a + b == a);
        assert(pow2(0) == 1);
        assert(msb_value(data, pos, a) * pow2(b) == msb_value(data, pos, a));
        assert(msb_value(data, pos + a, b) == 0);
    }
}

/// An `n`-bit two's complement number lies in `-2^(n-1) .. 2^(n-1)`.
pub proof fn lemma_sign_extend_range(v: nat, n: nat)
    requires
        n >= 1,
        v < pow2(n),
    ensures
        -pow2((n - 1) as nat) <= sign_extend(v, n) < pow2((n - 1) as nat),
{
    lemma_pow2_unfold(n);
}

/// A reader of the bits of a byte slice, most significant bit of each byte first.
pub struct BitReader<'a> {
    pub data: &'a [u8],
    pub bit_pos: usize,
}

impl<'a> BitReader<'a> {
    /// A reader at the first bit of `data`.
    pub fn new(data: &'a [u8]) -> (r: Self)
        ensures
            r.data@ == data@,
            r.bit_pos == 0,
    {
        Self { data, bit_pos: 0 }
    }

    /// Reads `n` bits as a number, the first bit most significant; of more than 64 bits only
    /// the last 64 are kept.
    pub fn read_bits(&mut self, n: usize) -> (r: u64)
        requires
            old(self).bit_pos + n <= 8 * old(self).data@.len(),
            8 * old(self).data@.len() <= usize::MAX,
        ensures
            final(self).data@ == old(self).data@,
            final(self).bit_pos == old(self).bit_pos + n,
            r == msb_value(old(self).data@, old(self).bit_pos as int, n as nat)
                % 0x1_0000_0000_0000_0000,
    {
        let ghost data = self.data@;
        let ghost pos0 = self.bit_pos as int;
        let mut result = 0u64;
        let mut i: usize = 0;
        while i < n
            invariant
                i <= n,
                self.data@ == data,
                self.bit_pos == pos0 + i,
                pos0 + n <= 8 * data.len(),
                8 * data.len() <= usize::MAX,
                result == msb_value(data, pos0, i as nat) % 0x1_0000_0000_0000_0000,
            decreases n - i,
        {
            let byte_pos = self.bit_pos / 8;
            let bit_offset = self.bit_pos % 8;
            let shift = (7 - bit_offset) as u8;
            let byte = self.data[byte_pos];
            let bit = (byte >> shift) & 1;
            proof {
                lemma_u8_shr_is_div(byte, shift);
                let q = byte >> shift;
                assert(q & 1 == q % 2) by (bit_vector);
                assert(bit as nat == msb_bit(data, pos0 + i));
                let v: int = msb_value(data, pos0, i as nat) as int;
                assert(msb_value(data, pos0, (i + 1) as nat) == 2 * v + bit);
                let m: int = 0x1_0000_0000_0000_0000;
                vstd::arithmetic::div_mod::lemma_fundamental_div_mod(v, m);
                vstd::arithmetic::div_mod::lemma_mod_multiples_vanish(
                    2 * (v / m),
                    2 * (v % m) + bit as int,
                    m,
                );
                assert(2 * v + bit as int == m * (2 * (v / m)) + (2 * (v % m) + bit as int));
                let b64 = bit as u64;
                assert((result << 1) | b64 == ((2 * result + b64) % 0x1_0000_0000_0000_0000) as u64)
                    by (bit_vector)
                    requires
                        b64 <= 1,
                ;
            }
            result = (result << 1) | bit as u64;
            self.bit_pos += 1;
            i += 1;
        }
        result
    }

    /// Reads `n` bits as an `n`-bit two's complement number.
    pub fn read_signed(&mut self, n: usize) -> (r: Option<i64>)
        requires
            old(self).bit_pos + n <= 8 * old(self).data@.len(),
            8 * old(self).data@.len() <= usize::MAX,
            n <= 64,
            n == 64 ==> msb_bit(old(self).data@, old(self).bit_pos as int) == 0,
        ensures
            final(self).data@ == old(self).data@,
            final(self).bit_pos == old(self).bit_pos + n,
            r == Some(
                sign_extend(msb_value(old(self).data@, old(self).bit_pos as int, n as nat), n as nat)
                    as i64,
            ),
    {
        if n == 0 {
            return Some(0);
        }
        let ghost data = self.data@;
        let ghost pos0 = self.bit_pos as int;
        let value = self.read_bits(n);
        let k = (n - 1) as u64;
        let ghost v = msb_value(data, pos0, n as nat);
        proof {
            lemma_msb_value_bound(data, pos0, n as nat);
            lemma2_to64();
            lemma_pow2_unfold(n as nat);
            if n < 64 {
                vstd::arithmetic::power2::lemma_pow2_strictly_increases(n as nat, 64);
            }
            assert(value == v);
            lemma_pow2_pos(k as nat);
            vstd::bits::lemma_u64_shl_is_mul(1, k);
            vstd::bits::lemma_u64_shr_is_div(value, k);
            assert((value & (1u64 << k)) != 0 <==> ((value >> k) & 1) == 1) by (bit_vector)
                requires
                    k < 64,
            ;
            assert((value as nat) / pow2(k as nat) <= 1) by {
                vstd::arithmetic::div_mod::lemma_div_is_ordered(
                    value as int,
                    2 * pow2(k as nat) - 1,
                    pow2(k as nat) as int,
                );
                vstd::arithmetic::div_mod::lemma_fundamental_div_mod(
                    2 * pow2(k as nat) - 1,
                    pow2(k as nat) as int,
                );
                assert((2 * pow2(k as nat) - 1) / (pow2(k as nat) as int) == 1) by {
                    vstd::arithmetic::div_mod::lemma_fundamental_div_mod_converse(
                        2 * pow2(k as nat) - 1,
                        pow2(k as nat) as int,
                        1,
                        pow2(k as nat) - 1,
                    );
                }
            }
            let q = value >> k;
            assert(q <= 1 ==> (q & 1) == q) by (bit_vector);
            assert(value >= pow2(k as nat) <==> (value as nat) / pow2(k as nat) >= 1) by {
                if value >= pow2(k as nat) {
                    vstd::arithmetic::div_mod::lemma_div_is_ordered(
                        pow2(k as nat) as int,
                        value as int,
                        pow2(k as nat) as int,
                    );
                    vstd::arithmetic::div_mod::lemma_div_by_self(pow2(k as nat) as int);
                } else {
                    vstd::arithmetic::div_mod::lemma_basic_div(value as int, pow2(k as nat) as int);
                }
            }
            if n == 64 {
                lemma_msb_value_split(data, pos0, 1, 63);
                lemma_msb_value_bound(data, pos0 + 1, 63);
                reveal_with_fuel(msb_value, 2);
                assert(msb_value(data, pos0, 1) == 0);
                assert(v < pow2(63));
            }
        }
        if value & (1u64 << k) != 0 {
            let shift = n as u64;
            proof {
                assert(shift < 64);
                vstd::bits::lemma_u64_shl_is_mul(1, shift);
                assert(value < (1u64 << shift));
                assert(((value | (!0u64 << shift)) as i64) == value - (1u64 << shift))
                    by (bit_vector)
                    requires
                        shift < 64,
                        value < (1u64 << shift),
                        k + 1 == shift,
                        value >= (1u64 << k),
                ;
            }
            let value = value | (!0u64 << shift);
            Some(value as i64)
        } else {
            proof {
                assert(v < pow2(k as nat));
                if n < 64 {
                    vstd::arithmetic::power2::lemma_pow2_strictly_increases(k as nat, 63);
                } else {
                    assert(k == 63);
                }
                assert(pow2(63) == 0x8000_0000_0000_0000) by {
                    vstd::arithmetic::power2::lemma2_to64_rest();
                }
            }
            Some(value as i64)
        }
    }

    /// The position of the next bit to be read.
    pub fn position(&self) -> (r: usize)
        ensures
            r == self.bit_pos,
    {
        self.bit_pos
    }

    /// How many bits are left to read.
    pub fn remaining(&self) -> (r: usize)
        requires
            self.bit_pos <= 8 * self.data@.len(),
            8 * self.data@.len() <= usize::MAX,
        ensures
            r == 8 * self.data@.len() - self.bit_pos,
    {
        self.data.len() * 8 - self.bit_pos
    }

    /// Moves `n` bits on.
    pub fn skip(&mut self, n: usize)
        requires
            old(self).bit_pos + n <= usize::MAX,
        ensures
            final(self).data@ == old(self).data@,
            final(self).bit_pos == old(self).bit_pos + n,
    {
        self.bit_pos += n;
    }

    /// Reads a unary number: the count of zero bits before the next one bit, which is read too.
    /// `None` when the stream ends first, or when the count does not fit in `u32`.
    pub fn try_unary(&mut self) -> (r: Option<u32>)
        requires
            old(self).bit_pos <= 8 * old(self).data@.len(),
            8 * old(self).data@.len() <= usize::MAX,
        ensures
            final(self).data@ == old(self).data@,
            old(self).bit_pos <= final(self).bit_pos <= 8 * old(self).data@.len(),
            match spec_unary(old(self).data@, old(self).bit_pos as int) {
                Some((q, p)) => if q <= u32::MAX {
                    r == Some(q as u32) && final(self).bit_pos == p
                } else {
                    r is None
                },
                None => r is None,
            },
    {
        let ghost data = self.data@;
        let ghost pos0 = self.bit_pos as int;
        let mut quotient: u32 = 0;
        loop
            invariant
                self.data@ == data,
                data == old(self).data@,
                pos0 == old(self).bit_pos,
                8 * data.len() <= usize::MAX,
                pos0 <= self.bit_pos <= 8 * data.len(),
                match spec_unary(data, self.bit_pos as int) {
                    Some((q, p)) => spec_unary(data, pos0) == Some(((q + quotient) as nat, p)),
                    None => spec_unary(data, pos0) is None,
                },
            decreases 8 * data.len() - self.bit_pos,
        {
            if self.bit_pos / 8 >= self.data.len() {
                return None;
            }
            let ghost cur = self.bit_pos as int;
            let bit = self.read_bits(1);
            proof {
                reveal_with_fuel(msb_value, 2);
                assert(bit == msb_bit(data, cur));
                assert(spec_unary(data, cur) == if msb_bit(data, cur) == 1 {
                    Some((0nat, cur + 1))
                } else {
                    match spec_unary(data, cur + 1) {
                        Some((q, p)) => Some(((q + 1) as nat, p)),
                        None => None,
                    }
                });
            }
            if bit == 1 {
                return Some(quotient);
            }
            if quotient == u32::MAX {
                return None;
            }
            quotient += 1;
        }
    }

    /// Reads a unary number that ends within the stream and fits in `u32`: the count of zero
    /// bits before the next one bit, which is read too. `try_unary` is the form that reports
    /// one that does not.
    pub fn unary(&mut self) -> (q: u32)
        requires
            old(self).bit_pos <= 8 * old(self).data@.len(),
            8 * old(self).data@.len() <= usize::MAX,
            spec_unary(old(self).data@, old(self).bit_pos as int) matches Some((n, _)) && n
                <= u32::MAX,
        ensures
            final(self).data@ == old(self).data@,
            spec_unary(old(self).data@, old(self).bit_pos as int) == Some(
                (q as nat, final(self).bit_pos as int),
            ),
    {
        self.try_unary().unwrap()
    }
}

} // verus!
