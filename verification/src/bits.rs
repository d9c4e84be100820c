use vstd::prelude::*;
use vstd::arithmetic::power2::{pow2, lemma_pow2_unfold, lemma_pow2_pos, lemma2_to64, lemma_pow2_adds};
use vstd::arithmetic::div_mod::{lemma_fundamental_div_mod, lemma_fundamental_div_mod_converse, lemma_div_denominator};
use vstd::bits::{lemma_u64_shl_is_mul, lemma_u64_shr_is_div, lemma_u64_low_bits_mask_is_mod, low_bits_mask, lemma_u64_pow2_no_overflow};

verus! {

/// Bit `k` of a byte stream, bits taken from the least significant end of each byte first
/// (the deflate bit order).
pub open spec fn bit_at(data: Seq<u8>, k: int) -> nat {
    ((data[k / 8] as nat) / pow2((k % 8) as nat)) % 2
}

/// The number formed by the `n` bits starting at bit `pos`, the first bit being the least
/// significant one.
pub open spec fn bits_value(data: Seq<u8>, pos: int, n: nat) -> nat
    decreases n,
{
    if n == 0 {
        0
    } else {
        bit_at(data, pos) + 2 * bits_value(data, pos + 1, (n - 1) as nat)
    }
}

/// Reading `n` bits at bit `pos`: their value and the position after them, or `None` when the
/// stream holds fewer than `n` bits from `pos` on.
pub open spec fn spec_read_bits(data: Seq<u8>, pos: int, n: nat) -> Option<(nat, int)> {
    if 0 <= pos && pos + n <= 8 * data.len() {
        Some((bits_value(data, pos, n), pos + n))
    } else {
        None
    }
}

/// The smallest multiple of 8 that is not below `pos`.
pub open spec fn align_up(pos: int) -> int {
    ((pos + 7) / 8) * 8
}

pub proof fn lemma_bit_at_bound(data: Seq<u8>, k: int)
    ensures
        bit_at(data, k) <= 1,
{
}

pub proof fn lemma_bits_value_bound(data: Seq<u8>, pos: int, n: nat)
    ensures
        bits_value(data, pos, n) < pow2(n),
    decreases n,
{
    if n == 0 {
        lemma2_to64();
    } else {
        lemma_bits_value_bound(data, pos + 1, (n - 1) as nat);
        lemma_pow2_unfold(n);
    }
}

/// The value of `a + b` bits splits into the value of the first `a` bits and, shifted by `a`,
/// the value of the next `b`.
pub proof fn lemma_bits_value_split(data: Seq<u8>, pos: int, a: nat, b: nat)
    ensures
        bits_value(data, pos, a + b) == bits_value(data, pos, a) + pow2(a) * bits_value(
            data,
            pos + a,
            b,
        ),
    decreases a,
{
    if a == 0 {
        lemma2_to64();
    } else {
        lemma_bits_value_split(data, pos + 1, (a - 1) as nat, b);
        lemma_pow2_unfold(a);
        let x = bits_value(data, pos + 1, (a - 1) as nat);
        let y = bits_value(data, pos + a, b);
        let p = pow2((a - 1) as nat);
        assert(2 * (x + p * y) == 2 * x + (2 * p) * y) by (nonlinear_arith);
        assert((a - 1) as nat + b == (a + b - 1) as nat);
    }
}

proof fn lemma_byte_bits_from(data: Seq<u8>, i: int, j: nat)
    requires
        0 <= i < data.len(),
        j <= 8,
    ensures
        bits_value(data, 8 * i + j, (8 - j) as nat) == (data[i] as nat) / pow2(j),
    decreases 8 - j,
{
    let x = data[i] as nat;
    lemma_pow2_pos(j);
    if j == 8 {
        lemma2_to64();
        assert(x / pow2(8) == 0) by {
            assert(pow2(8) == 256);
        }
    } else {
        lemma_byte_bits_from(data, i, j + 1);
        let k = 8 * i + j;
        assert(k / 8 == i && k % 8 == j) by {
            lemma_fundamental_div_mod_converse(k, 8, i, j as int);
        }
        assert(8 * i + j + 1 == 8 * i + (j + 1));
        let y = x / pow2(j);
        lemma_pow2_unfold(j + 1);
        assert(x / pow2(j + 1) == y / 2) by {
            lemma_div_denominator(x as int, pow2(j) as int, 2);
            assert(pow2(j + 1) == pow2(j) * 2);
        }
        lemma_fundamental_div_mod(y as int, 2);
    }
}

/// The eight bits of a byte, read from its least significant end, give the byte back.
pub proof fn lemma_byte_bits(data: Seq<u8>, i: int)
    requires
        0 <= i < data.len(),
    ensures
        bits_value(data, 8 * i, 8) == data[i] as nat,
{
    lemma_byte_bits_from(data, i, 0);
    lemma2_to64();
}

/// Two bytes read as 16 bits give the little-endian number they hold.
pub proof fn lemma_bits16(data: Seq<u8>, i: int)
    requires
        0 <= i,
        i + 1 < data.len(),
    ensures
        bits_value(data, 8 * i, 16) == data[i] + 256 * data[i + 1],
{
    lemma_bits_value_split(data, 8 * i, 8, 8);
    lemma_byte_bits(data, i);
    lemma_byte_bits(data, i + 1);
    assert(8 * i + 8 == 8 * (i + 1));
    lemma2_to64();
}

/// Reading `a + b` bits at once gives the same as reading `a` bits and then `b` bits: the
/// first read gives the low `a` bits of the value, the second the rest.
pub proof fn lemma_read_bits_split(data: Seq<u8>, pos: int, a: nat, b: nat)
    requires
        spec_read_bits(data, pos, a + b) is Some,
    ensures
        spec_read_bits(data, pos, a) is Some,
        spec_read_bits(data, pos + a, b) is Some,
        spec_read_bits(data, pos, a + b).unwrap().0 == spec_read_bits(data, pos, a).unwrap().0
            + pow2(a) * spec_read_bits(data, pos + a, b).unwrap().0,
        spec_read_bits(data, pos, a + b).unwrap().1 == spec_read_bits(
            data,
            pos + a,
            b,
        ).unwrap().1,
{
    lemma_bits_value_split(data, pos, a, b);
}

/// A reader of the bits of a byte slice, least significant bit of each byte first.
pub struct BitReader<'a> {
    data: &'a [u8],
    index: usize,
    bits: u64,
    count: usize,
}

impl<'a> BitReader<'a> {
    /// The bytes being read.
    pub closed spec fn bytes(&self) -> Seq<u8> {
        self.data@
    }

    /// The position, in bits from the start of the bytes, of the next bit to be read.
    pub closed spec fn position(&self) -> int {
        self.index * 8 - self.count
    }

    /// The buffered bits are exactly the next `count` bits of the stream.
    pub closed spec fn wf(&self) -> bool {
        &&& self.index <= self.data@.len()
        &&& self.count <= 63
        &&& self.count <= self.index * 8
        &&& self.bits == bits_value(self.data@, self.position(), self.count as nat)
    }

    pub proof fn lemma_position_bounds(&self)
        requires
            self.wf(),
        ensures
            0 <= self.position() <= 8 * self.bytes().len(),
    {
    }

    pub fn new(data: &'a [u8]) -> (r: Self)
        ensures
            r.wf(),
            r.bytes() == data@,
            r.position() == 0,
    {
        Self { data, index: 0, bits: 0, count: 0 }
    }

    /// Buffers bytes until at least `n` bits are buffered; false when the bytes run out first.
    fn fill(&mut self, n: usize) -> (r: bool)
        requires
            old(self).wf(),
            n <= 56,
        ensures
            final(self).wf(),
            final(self).bytes() == old(self).bytes(),
            final(self).position() == old(self).position(),
            r == (old(self).position() + n <= 8 * old(self).bytes().len()),
            r ==> final(self).count >= n,
    {
        while self.count < n
            invariant
                self.wf(),
                self.bytes() == old(self).bytes(),
                self.position() == old(self).position(),
                n <= 56,
            decreases self.data@.len() - self.index,
        {
            if self.index >= self.data.len() {
                return false;
            }
            let byte = self.data[self.index];
            let ghost p = self.position();
            let ghost c = self.count;
            let c64 = self.count as u64;
            proof {
                lemma_bits_value_bound(self.data@, p, c as nat);
                lemma_u64_pow2_no_overflow(c as nat);
                lemma_u64_shl_is_mul(1u64, c64);
                let bits = self.bits;
                assert(bits < (1u64 << c64));
                assert(bits | ((byte as u64) << c64) == bits + ((byte as u64) << c64))
                    by (bit_vector)
                    requires
                        bits < (1u64 << c64),
                        c64 <= 55,
                ;
                lemma2_to64();
                vstd::arithmetic::power2::lemma2_to64_rest();
                assert(pow2(c as nat) <= pow2(55)) by {
                    if c < 55 {
                        vstd::arithmetic::power2::lemma_pow2_strictly_increases(c as nat, 55);
                    }
                }
                assert((byte as u64) * pow2(c64 as nat) <= u64::MAX) by (nonlinear_arith)
                    requires
                        byte <= 255,
                        pow2(c64 as nat) <= pow2(55),
                        pow2(55) == 0x80000000000000,
                ;
                lemma_u64_shl_is_mul(byte as u64, c64);
                lemma_bits_value_split(self.data@, p, c as nat, 8);
                lemma_byte_bits(self.data@, self.index as int);
                assert(p + c == 8 * self.index);
                assert(bits_value(self.data@, p + c, 8) == byte as nat);
                assert((byte as u64) * pow2(c64 as nat) == pow2(c as nat) * bits_value(self.data@, p + c, 8)) by (nonlinear_arith)
                    requires bits_value(self.data@, p + c, 8) == byte as nat, c64 == c;
            }
            self.bits = self.bits | ((byte as u64) << c64);
            self.count = self.count + 8;
            self.index = self.index + 1;
            proof {
                assert(self.position() == p);
                assert(self.count as nat == c as nat + 8);
            }
        }
        true
    }

    proof fn lemma_take_low(&self, n: nat)
        requires
            self.wf(),
            n <= self.count,
        ensures
            self.bits as nat % pow2(n) == bits_value(self.data@, self.position(), n),
            self.bits as nat / pow2(n) == bits_value(
                self.data@,
                self.position() + n,
                (self.count - n) as nat,
            ),
    {
        let p = self.position();
        lemma_bits_value_split(self.data@, p, n, (self.count - n) as nat);
        assert(n + (self.count - n) as nat == self.count as nat);
        lemma_bits_value_bound(self.data@, p, n);
        lemma_pow2_pos(n);
        let lo = bits_value(self.data@, p, n);
        let hi = bits_value(self.data@, p + n, (self.count - n) as nat);
        assert(self.bits as int == hi * pow2(n) + lo) by (nonlinear_arith)
            requires
                self.bits as int == lo + pow2(n) * hi,
        ;
        lemma_fundamental_div_mod_converse(self.bits as int, pow2(n) as int, hi as int, lo as int);
    }

    /// Reads the next `n` bits as a number, first bit least significant.
    pub fn read_bits(&mut self, n: usize) -> (r: Option<u64>)
        requires
            old(self).wf(),
            n <= 56,
        ensures
            final(self).wf(),
            final(self).bytes() == old(self).bytes(),
            match spec_read_bits(old(self).bytes(), old(self).position(), n as nat) {
                Some((v, p)) => r == Some(v as u64) && final(self).position() == p,
                None => r is None && final(self).position() == old(self).position(),
            },
    {
        if !self.fill(n) {
            return None;
        }
        let n64 = n as u64;
        proof {
            lemma_u64_pow2_no_overflow(n as nat);
            lemma_u64_shl_is_mul(1u64, n64);
            self.lemma_take_low(n as nat);
            lemma_u64_low_bits_mask_is_mod(self.bits, n as nat);
            lemma_u64_shr_is_div(self.bits, n64);
            assert(low_bits_mask(n as nat) == pow2(n as nat) - 1);
        }
        let value = self.bits & ((1u64 << n64) - 1);
        let ghost p = self.position();
        self.bits = self.bits >> n64;
        self.count = self.count - n;
        proof {
            assert(self.position() == p + n);
        }
        Some(value)
    }

    /// The value of the next `n` bits, without consuming them.
    pub fn peek_bits(&mut self, n: usize) -> (r: Option<u64>)
        requires
            old(self).wf(),
            n <= 56,
        ensures
            final(self).wf(),
            final(self).bytes() == old(self).bytes(),
            final(self).position() == old(self).position(),
            match spec_read_bits(old(self).bytes(), old(self).position(), n as nat) {
                Some((v, p)) => r == Some(v as u64),
                None => r is None,
            },
    {
        if !self.fill(n) {
            return None;
        }
        let n64 = n as u64;
        proof {
            lemma_u64_pow2_no_overflow(n as nat);
            lemma_u64_shl_is_mul(1u64, n64);
            self.lemma_take_low(n as nat);
            lemma_u64_low_bits_mask_is_mod(self.bits, n as nat);
            assert(low_bits_mask(n as nat) == pow2(n as nat) - 1);
        }
        Some(self.bits & ((1u64 << n64) - 1))
    }

    /// Consumes the next `n` bits; false, consuming nothing, when fewer are left.
    pub fn skip_bits(&mut self, n: usize) -> (r: bool)
        requires
            old(self).wf(),
            n <= 56,
        ensures
            final(self).wf(),
            final(self).bytes() == old(self).bytes(),
            r == (old(self).position() + n <= 8 * old(self).bytes().len()),
            final(self).position() == if r {
                old(self).position() + n
            } else {
                old(self).position()
            },
    {
        if !self.fill(n) {
            return false;
        }
        let n64 = n as u64;
        proof {
            self.lemma_take_low(n as nat);
            lemma_u64_shr_is_div(self.bits, n64);
        }
        let ghost p = self.position();
        self.bits = self.bits >> n64;
        self.count = self.count - n;
        proof {
            assert(self.position() == p + n);
        }
        true
    }

    /// Drops the buffered bits up to the next byte boundary.
    pub fn align_byte(&mut self)
        requires
            old(self).wf(),
        ensures
            final(self).wf(),
            final(self).bytes() == old(self).bytes(),
            final(self).position() == align_up(old(self).position()),
    {
        let n = self.count & 7;
        proof {
            let c = self.count;
            assert(c & 7 == c % 8) by (bit_vector);
            assert(n <= 7);
            self.lemma_take_low(n as nat);
            lemma_u64_shr_is_div(self.bits, n as u64);
            let p = self.position();
            assert(p + n == 8 * (self.index - c / 8));
            assert(align_up(p) == p + n) by {
                let q = self.index - c / 8;
                assert(p == 8 * q - n);
                if n == 0 {
                    lemma_fundamental_div_mod_converse(p + 7, 8, q, 7);
                } else {
                    lemma_fundamental_div_mod_converse(p + 7, 8, q, 7 - n);
                }
            }
        }
        let ghost p = self.position();
        self.bits = self.bits >> (n as u64);
        self.count = self.count - n;
        proof {
            assert(self.position() == p + n);
        }
    }

    /// The index of the first byte that holds no consumed bit.
    pub fn byte_position(&self) -> (r: usize)
        requires
            self.wf(),
        ensures
            r as int == align_up(self.position()) / 8,
    {
        proof {
            let c = self.count;
            let p = self.position();
            let q = self.index - c / 8;
            lemma_fundamental_div_mod(c as int, 8);
            assert(p == 8 * q - c % 8);
            lemma_fundamental_div_mod_converse(p + 7, 8, q, 7 - c % 8);
            lemma_fundamental_div_mod_converse(align_up(p), 8, q, 0);
        }
        self.index - self.count / 8
    }

    /// Skips to the next byte boundary and takes the next `len` whole bytes.
    pub fn take_bytes(&mut self, len: usize) -> (r: Option<&'a [u8]>)
        requires
            old(self).wf(),
        ensures
            final(self).wf(),
            final(self).bytes() == old(self).bytes(),
            ({
                let b = align_up(old(self).position()) / 8;
                if b + len <= old(self).bytes().len() {
                    &&& r is Some
                    &&& r.unwrap()@ == old(self).bytes().subrange(b, b + len)
                    &&& final(self).position() == 8 * (b + len)
                } else {
                    &&& r is None
                    &&& final(self).position() == align_up(old(self).position())
                }
            }),
    {
        self.align_byte();
        let pos = self.byte_position();
        proof {
            let p = self.position();
            lemma_fundamental_div_mod_converse(p + 7, 8, p / 8, 7);
            assert(align_up(p) == p);
        }
        let end = match pos.checked_add(len) {
            Some(e) => e,
            None => {
                assert(self.data@.len() == self.data.len());
                return None;
            },
        };
        if end > self.data.len() {
            return None;
        }
        self.index = end;
        self.bits = 0;
        self.count = 0;
        Some(vstd::slice::slice_subrange(self.data, pos, end))
    }
}

} // verus!
