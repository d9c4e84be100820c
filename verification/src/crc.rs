use vstd::prelude::*;

verus! {

/// One step of the CRC-32 shift register (reflected polynomial 0xEDB88320): shift right by one,
/// xoring in the polynomial when a one is shifted out.
pub open spec fn crc_step(c: u32) -> u32 {
    if c & 1 != 0 {
        0xEDB88320u32 ^ (c >> 1u32)
    } else {
        c >> 1u32
    }
}

/// `k` steps of the CRC-32 shift register.
pub open spec fn crc_steps(c: u32, k: nat) -> u32
    decreases k,
{
    if k == 0 {
        c
    } else {
        crc_steps(crc_step(c), (k - 1) as nat)
    }
}

/// The register after feeding the bytes of `data`, one bit at a time, into register `c`.
pub open spec fn crc_register(c: u32, data: Seq<u8>) -> u32
    decreases data.len(),
{
    if data.len() == 0 {
        c
    } else {
        crc_steps(crc_register(c, data.drop_last()) ^ (data.last() as u32), 8)
    }
}

/// The CRC-32 of `data` as PNG defines it (ISO 3309 / ITU-T V.42): register preset to all ones,
/// result complemented.
pub open spec fn spec_crc32(data: Seq<u8>) -> u32 {
    crc_register(0xffffffff, data) ^ 0xffffffff
}

proof fn lemma_crc_step_xor(x: u32, y: u32)
    ensures
        crc_step(x ^ y) == crc_step(x) ^ crc_step(y),
{
    assert(crc_step(x ^ y) == crc_step(x) ^ crc_step(y)) by (bit_vector);
}

/// The register is linear over xor.
pub proof fn lemma_crc_steps_xor(x: u32, y: u32, k: nat)
    ensures
        crc_steps(x ^ y, k) == crc_steps(x, k) ^ crc_steps(y, k),
    decreases k,
{
    if k > 0 {
        lemma_crc_step_xor(x, y);
        lemma_crc_steps_xor(crc_step(x), crc_step(y), (k - 1) as nat);
    }
}

/// Eight steps on a register whose low byte is zero only shift it.
proof fn lemma_crc_steps_high(h: u32)
    requires
        h & 0xff == 0,
    ensures
        crc_steps(h, 8) == h >> 8u32,
{
    reveal_with_fuel(crc_steps, 9);
    assert(crc_step(crc_step(crc_step(crc_step(crc_step(crc_step(crc_step(crc_step(h))))))))
        == h >> 8u32) by (bit_vector)
        requires
            h & 0xff == 0,
    ;
}

/// Feeding byte `b` into register `c` is one table lookup on the low byte of `c ^ b`, xored
/// with the rest of the register shifted down: the table-driven CRC computes the bitwise one.
pub proof fn lemma_crc_table_step(c: u32, b: u8)
    ensures
        crc_steps(c ^ (b as u32), 8) == crc_steps((c ^ (b as u32)) & 0xff, 8) ^ (c >> 8u32),
{
    let x = c ^ (b as u32);
    let lo = x & 0xff;
    let hi = x & 0xffffff00;
    assert(x == lo ^ hi && hi & 0xff == 0 && hi >> 8u32 == c >> 8u32) by (bit_vector)
        requires
            x == c ^ (b as u32),
            lo == x & 0xff,
            hi == x & 0xffffff00,
    ;
    lemma_crc_steps_xor(lo, hi, 8);
    lemma_crc_steps_high(hi);
}

/// The CRC table: entry `n` is the register after eight steps from `n`.
pub fn make_crc_table() -> (table: [u32; 256])
    ensures
        forall|n: int| 0 <= n < 256 ==> #[trigger] table@[n] == crc_steps(n as u32, 8),
{
    let mut table = [0u32; 256];
    let mut n: usize = 0;
    while n < 256
        invariant
            n <= 256,
            forall|k: int| 0 <= k < n ==> #[trigger] table@[k] == crc_steps(k as u32, 8),
        decreases 256 - n,
    {
        let mut c = n as u32;
        let mut i: usize = 0;
        while i < 8
            invariant
                i <= 8,
                n < 256,
                crc_steps(c, (8 - i) as nat) == crc_steps(n as u32, 8),
            decreases 8 - i,
        {
            if c & 1 != 0 {
                c = 0xEDB88320 ^ (c >> 1);
            } else {
                c >>= 1;
            }
            i += 1;
        }
        table[n] = c;
        n += 1;
    }
    table
}

/// Feeds `bytes` into the register `crc`, one table lookup per byte.
pub fn crc_update(table: &[u32; 256], crc: u32, bytes: &[u8]) -> (r: u32)
    requires
        forall|n: int| 0 <= n < 256 ==> #[trigger] table@[n] == crc_steps(n as u32, 8),
    ensures
        r == crc_register(crc, bytes@),
{
    let mut c = crc;
    let mut i: usize = 0;
    while i < bytes.len()
        invariant
            i <= bytes@.len(),
            forall|n: int| 0 <= n < 256 ==> #[trigger] table@[n] == crc_steps(n as u32, 8),
            c == crc_register(crc, bytes@.take(i as int)),
        decreases bytes@.len() - i,
    {
        let b = bytes[i];
        let idx = ((c ^ b as u32) & 0xff) as usize;
        proof {
            lemma_crc_table_step(c, b);
            assert(bytes@.take(i + 1).drop_last() =~= bytes@.take(i as int));
            assert(((c ^ b as u32) & 0xff) < 256) by (bit_vector);
        }
        c = table[idx] ^ (c >> 8);
        i += 1;
    }
    proof {
        assert(bytes@.take(bytes@.len() as int) =~= bytes@);
    }
    c
}

/// The CRC-32 of `buf`.
pub fn crc32(buf: &[u8]) -> (r: u32)
    ensures
        r == spec_crc32(buf@),
{
    let table = make_crc_table();
    crc_update(&table, 0xffffffff, buf) ^ 0xffffffff
}

/// Feeding two byte strings one after the other is feeding their concatenation.
pub proof fn lemma_crc_register_concat(c: u32, a: Seq<u8>, b: Seq<u8>)
    ensures
        crc_register(crc_register(c, a), b) == crc_register(c, a + b),
    decreases b.len(),
{
    if b.len() == 0 {
        assert(a + b =~= a);
    } else {
        lemma_crc_register_concat(c, a, b.drop_last());
        assert((a + b).drop_last() =~= a + b.drop_last());
    }
}

} // verus!
