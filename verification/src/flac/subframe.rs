use vstd::prelude::*;
use vstd::arithmetic::power2::{pow2, lemma2_to64};
use crate::flac::bits::{
    BitReader, msb_bit, msb_value, sign_extend, spec_unary, lemma_msb_value_bound,
    lemma_sign_extend_range,
};
use crate::flac::error::FlacError;

verus! {

// ---------------------------------------------------------------------------------------------
// Samples (RFC 9639, 9.2)
// ---------------------------------------------------------------------------------------------

/// Reading an `n`-bit two's complement sample at bit `pos`: its value and the position after
/// it. A reader holds samples of at most 64 bits, and a 64-bit sample only when it is not
/// negative.
pub open spec fn spec_read_sample(data: Seq<u8>, pos: int, n: nat) -> Result<(int, int), FlacError> {
    if pos < 0 || pos + n > 8 * data.len() {
        Err(FlacError::UnexpectedEnd)
    } else if n > 64 || (n == 64 && msb_bit(data, pos) == 1) {
        Err(FlacError::SampleRange)
    } else {
        Ok((sign_extend(msb_value(data, pos, n), n), pos + n))
    }
}

/// Reading `k` samples of `n` bits each, each kept in 32 bits.
#[verifier::opaque]
pub open spec fn spec_read_samples(data: Seq<u8>, pos: int, n: nat, k: nat) -> Result<
    (Seq<i32>, int),
    FlacError,
>
    decreases k,
{
    if k == 0 {
        Ok((seq![], pos))
    } else {
        match spec_read_samples(data, pos, n, (k - 1) as nat) {
            Err(e) => Err(e),
            Ok((s, p)) => match spec_read_sample(data, p, n) {
                Err(e) => Err(e),
                Ok((v, p2)) => Ok((s.push((v as i64) as i32), p2)),
            },
        }
    }
}

/// The reader is within its bytes, and its bit count fits in `usize`.
pub open spec fn reader_ok(stream: BitReader) -> bool {
    &&& stream.bit_pos <= 8 * stream.data@.len()
    &&& 8 * stream.data@.len() <= usize::MAX
}

/// Appending to a sequence keeps every prefix it had.
proof fn lemma_prefix_push(a: Seq<i32>, s: Seq<i32>, x: i32)
    requires
        a.is_prefix_of(s),
    ensures
        a.is_prefix_of(s.push(x)),
{
    assert(s.push(x).subrange(0, a.len() as int) =~= s.subrange(0, a.len() as int));
}

/// Every sequence is a prefix of itself.
proof fn lemma_prefix_refl(a: Seq<i32>)
    ensures
        a.is_prefix_of(a),
{
    assert(a.subrange(0, a.len() as int) =~= a);
}

/// A prefix of a prefix is a prefix.
proof fn lemma_prefix_trans(a: Seq<i32>, b: Seq<i32>, c: Seq<i32>)
    requires
        a.is_prefix_of(b),
        b.is_prefix_of(c),
    ensures
        a.is_prefix_of(c),
{
    assert(c.subrange(0, a.len() as int) =~= b.subrange(0, a.len() as int));
}

/// Reads one `n`-bit two's complement sample.
fn read_sample(stream: &mut BitReader, n: usize) -> (r: Result<i64, FlacError>)
    requires
        reader_ok(*old(stream)),
    ensures
        reader_ok(*final(stream)),
        final(stream).data@ == old(stream).data@,
        match spec_read_sample(old(stream).data@, old(stream).bit_pos as int, n as nat) {
            Ok((v, p)) => r == Ok::<i64, FlacError>(v as i64) && final(stream).bit_pos == p,
            Err(e) => r == Err::<i64, FlacError>(e),
        },
{
    if stream.remaining() < n {
        return Err(FlacError::UnexpectedEnd);
    }
    if n > 64 {
        return Err(FlacError::SampleRange);
    }
    if n == 64 {
        let ghost pos = stream.bit_pos as int;
        let byte = stream.data[stream.bit_pos / 8];
        let shift = (7 - stream.bit_pos % 8) as u8;
        let top = (byte >> shift) & 1;
        proof {
            vstd::bits::lemma_u8_shr_is_div(byte, shift);
            let q = byte >> shift;
            assert(q & 1 == q % 2) by (bit_vector);
            assert(top as nat == msb_bit(stream.data@, pos));
        }
        if top == 1 {
            return Err(FlacError::SampleRange);
        }
    }
    proof {
        lemma_msb_value_bound(stream.data@, stream.bit_pos as int, n as nat);
    }
    match stream.read_signed(n) {
        Some(v) => Ok(v),
        None => Err(FlacError::UnexpectedEnd),
    }
}

/// Reads `k` samples of `n` bits each, appending them to `samples`.
fn read_samples(stream: &mut BitReader, n: usize, k: usize, samples: &mut Vec<i32>) -> (r: Result<
    (),
    FlacError,
>)
    requires
        reader_ok(*old(stream)),
    ensures
        old(samples)@.is_prefix_of(final(samples)@),
        reader_ok(*final(stream)),
        final(stream).data@ == old(stream).data@,
        match spec_read_samples(old(stream).data@, old(stream).bit_pos as int, n as nat, k as nat) {
            Ok((s, p)) => r is Ok && final(samples)@ == old(samples)@ + s && final(stream).bit_pos
                == p,
            Err(e) => r == Err::<(), FlacError>(e),
        },
{
    let ghost data = stream.data@;
    let ghost pos0 = stream.bit_pos as int;
    let ghost start = samples@;
    proof {
        reveal(spec_read_samples);
    }
    let mut i: usize = 0;
    while i < k
        invariant
            i <= k,
            reader_ok(*stream),
            stream.data@ == data,
            data == old(stream).data@,
            pos0 == old(stream).bit_pos,
            start == old(samples)@,
            start.is_prefix_of(samples@),
            match spec_read_samples(data, pos0, n as nat, i as nat) {
                Ok((s, p)) => samples@ == start + s && stream.bit_pos == p,
                Err(e) => false,
            },
        decreases k - i,
    {
        let ghost before = samples@;
        proof {
            reveal(spec_read_samples);
        }
        match read_sample(stream, n) {
            Ok(v) => {
                proof {
                    lemma_prefix_push(start, samples@, v as i32);
                }
                samples.push(v as i32);
                proof {
                    let (s, p) = spec_read_samples(data, pos0, n as nat, i as nat)->Ok_0;
                    assert(samples@ =~= start + s.push(v as i32));
                }
            },
            Err(e) => {
                proof {
                    assert(spec_read_samples(data, pos0, n as nat, (i + 1) as nat) == Err::<
                        (Seq<i32>, int),
                        FlacError,
                    >(e));
                    lemma_samples_err_stays(data, pos0, n as nat, (i + 1) as nat, k as nat);
                }
                return Err(e);
            },
        }
        i += 1;
    }
    Ok(())
}

/// Once reading some samples fails, reading more fails in the same way.
proof fn lemma_samples_err_stays(data: Seq<u8>, pos: int, n: nat, a: nat, b: nat)
    requires
        a <= b,
        spec_read_samples(data, pos, n, a) is Err,
    ensures
        spec_read_samples(data, pos, n, b) == spec_read_samples(data, pos, n, a),
    decreases b,
{
    reveal(spec_read_samples);
    if a < b {
        lemma_samples_err_stays(data, pos, n, a, (b - 1) as nat);
    }
}

/// Reads a constant subframe: one sample of `bps` bits, repeated for the block.
pub fn try_read_subframe_constant(stream: &mut BitReader, block_size: u32, bps: u32) -> (r: Result<
    Vec<i32>,
    FlacError,
>)
    requires
        reader_ok(*old(stream)),
    ensures
        reader_ok(*final(stream)),
        final(stream).data@ == old(stream).data@,
        match spec_read_sample(old(stream).data@, old(stream).bit_pos as int, bps as nat) {
            Ok((v, p)) => r matches Ok(s) && s@ == Seq::new(
                block_size as nat,
                |i: int| (v as i64) as i32,
            ) && final(stream).bit_pos == p,
            Err(e) => r == Err::<Vec<i32>, FlacError>(e),
        },
{
    let sample = match read_sample(stream, bps as usize) {
        Ok(v) => v as i32,
        Err(e) => {
            return Err(e);
        },
    };
    let samples = vec![sample; block_size as usize];
    proof {
        assert(samples@ =~= Seq::new(block_size as nat, |i: int| sample));
    }
    Ok(samples)
}

/// Reads a verbatim subframe: `block_size` samples of `bps` bits.
pub fn try_read_subframe_verbatim(stream: &mut BitReader, block_size: u32, bps: u32) -> (r: Result<
    Vec<i32>,
    FlacError,
>)
    requires
        reader_ok(*old(stream)),
    ensures
        reader_ok(*final(stream)),
        final(stream).data@ == old(stream).data@,
        match spec_read_samples(
            old(stream).data@,
            old(stream).bit_pos as int,
            bps as nat,
            block_size as nat,
        ) {
            Ok((s, p)) => r matches Ok(v) && v@ == s && final(stream).bit_pos == p,
            Err(e) => r == Err::<Vec<i32>, FlacError>(e),
        },
{
    let mut samples: Vec<i32> = Vec::new();
    match read_samples(stream, bps as usize, block_size as usize, &mut samples) {
        Ok(()) => {
            proof {
                assert(samples@ =~= seq![] + spec_read_samples(
                    old(stream).data@,
                    old(stream).bit_pos as int,
                    bps as nat,
                    block_size as nat,
                )->Ok_0.0);
            }
            Ok(samples)
        },
        Err(e) => Err(e),
    }
}

// ---------------------------------------------------------------------------------------------
// The coded residual (RFC 9639, 9.2.7)
// ---------------------------------------------------------------------------------------------

/// The signed number that a folded residual stands for: even numbers for zero and the
/// positive numbers, odd ones for the negative numbers.
pub open spec fn zigzag(u: nat) -> int {
    if u % 2 == 0 {
        (u / 2) as int
    } else {
        -((u / 2) as int) - 1
    }
}

/// Reading one Rice-coded residual with the given parameter: a unary quotient, then
/// `param` bits of remainder. A quotient that does not fit in 32 bits counts as running out of
/// data.
pub open spec fn spec_rice_sample(data: Seq<u8>, pos: int, param: nat) -> Result<(int, int), FlacError> {
    match spec_unary(data, pos) {
        None => Err(FlacError::UnexpectedEnd),
        Some((q, p)) => {
            if q > u32::MAX || p + param > 8 * data.len() {
                Err(FlacError::UnexpectedEnd)
            } else {
                Ok((zigzag(q * pow2(param) + msb_value(data, p, param)), p + param))
            }
        },
    }
}

/// Reading `k` Rice-coded residuals, each kept in 32 bits.
#[verifier::opaque]
pub open spec fn spec_rice_run(data: Seq<u8>, pos: int, param: nat, k: nat) -> Result<
    (Seq<i32>, int),
    FlacError,
>
    decreases k,
{
    if k == 0 {
        Ok((seq![], pos))
    } else {
        match spec_rice_run(data, pos, param, (k - 1) as nat) {
            Err(e) => Err(e),
            Ok((s, p)) => match spec_rice_sample(data, p, param) {
                Err(e) => Err(e),
                Ok((v, p2)) => Ok((s.push((v as i64) as i32), p2)),
            },
        }
    }
}

/// Reading one residual partition of `number` residuals: its Rice parameter of `pbits` bits,
/// then Rice-coded residuals, or, when the parameter is `escape`, a 5-bit sample width and
/// plain signed samples of that width.
pub open spec fn spec_partition(data: Seq<u8>, pos: int, pbits: nat, escape: nat, number: nat) -> Result<
    (Seq<i32>, int),
    FlacError,
> {
    if pos < 0 || pos + pbits > 8 * data.len() {
        Err(FlacError::UnexpectedEnd)
    } else {
        let param = msb_value(data, pos, pbits);
        let p1 = pos + pbits;
        if param == escape {
            if p1 + 5 > 8 * data.len() {
                Err(FlacError::UnexpectedEnd)
            } else {
                spec_read_samples(data, p1 + 5, msb_value(data, p1, 5), number)
            }
        } else {
            spec_rice_run(data, p1, param, number)
        }
    }
}

/// Reading the residual partitions `i..partitions`, each `psize` residuals long except the
/// first, which is `order` shorter; `pbits` is the width of each partition's Rice parameter and
/// `escape` the parameter value that marks an escaped partition of plain signed samples.
#[verifier::opaque]
pub open spec fn spec_partitions(
    data: Seq<u8>,
    pos: int,
    i: nat,
    partitions: nat,
    psize: nat,
    order: nat,
    pbits: nat,
    escape: nat,
) -> Result<(Seq<i32>, int), FlacError>
    decreases partitions - i,
{
    if i >= partitions {
        Ok((seq![], pos))
    } else {
        let number: nat = if i == 0 {
            (psize - order) as nat
        } else {
            psize
        };
        match spec_partition(data, pos, pbits, escape, number) {
            Err(e) => Err(e),
            Ok((s, p)) => match spec_partitions(
                data,
                p,
                i + 1,
                partitions,
                psize,
                order,
                pbits,
                escape,
            ) {
                Err(e) => Err(e),
                Ok((rest, p2)) => Ok((s + rest, p2)),
            },
        }
    }
}

/// Reading the coded residual of a subframe of `block_size` samples whose predictor has the
/// given order: the coding method (4- or 5-bit Rice parameters), the partition order, then the
/// partitions.
pub open spec fn spec_residual(data: Seq<u8>, pos: int, block_size: nat, order: nat) -> Result<
    (Seq<i32>, int),
    FlacError,
> {
    if pos < 0 || pos + 6 > 8 * data.len() {
        Err(FlacError::UnexpectedEnd)
    } else {
        let coding = msb_value(data, pos, 2);
        if coding > 1 {
            Err(FlacError::ReservedResidualCoding)
        } else {
            let partitions = pow2(msb_value(data, pos + 2, 4));
            let psize = block_size / partitions;
            if psize < order {
                Err(FlacError::PartitionTooSmall)
            } else if coding == 0 {
                spec_partitions(data, pos + 6, 0, partitions, psize, order, 4, 15)
            } else {
                spec_partitions(data, pos + 6, 0, partitions, psize, order, 5, 31)
            }
        }
    }
}

/// Reads one Rice-coded residual.
fn read_rice(stream: &mut BitReader, param: u64) -> (r: Result<i64, FlacError>)
    requires
        reader_ok(*old(stream)),
        param <= 30,
    ensures
        reader_ok(*final(stream)),
        final(stream).data@ == old(stream).data@,
        match spec_rice_sample(old(stream).data@, old(stream).bit_pos as int, param as nat) {
            Ok((v, p)) => r == Ok::<i64, FlacError>(v as i64) && final(stream).bit_pos == p,
            Err(e) => r == Err::<i64, FlacError>(e),
        },
{
    let q = match stream.try_unary() {
        Some(q) => q,
        None => {
            return Err(FlacError::UnexpectedEnd);
        },
    };
    if stream.remaining() < param as usize {
        return Err(FlacError::UnexpectedEnd);
    }
    let ghost p = stream.bit_pos as int;
    let r = stream.read_bits(param as usize);
    proof {
        lemma_msb_value_bound(stream.data@, p, param as nat);
        lemma2_to64();
        vstd::arithmetic::power2::lemma_pow2_strictly_increases(param as nat, 64);
        vstd::arithmetic::power2::lemma_pow2_strictly_increases(param as nat, 31);
        assert(pow2(31) == 0x8000_0000) by {
            vstd::arithmetic::power2::lemma2_to64();
        }
        assert(q as nat * pow2(param as nat) <= 0xFFFF_FFFF * 0x8000_0000) by (nonlinear_arith)
            requires
                q <= 0xFFFF_FFFF,
                pow2(param as nat) <= 0x8000_0000,
        ;
        vstd::bits::lemma_u64_shl_is_mul(q as u64, param);
        vstd::bits::lemma_u64_shl_is_mul(1, param);
        let qq = q as u64;
        assert(r < (1u64 << param));
        assert(((qq << param) | r) == (qq << param) + r) by (bit_vector)
            requires
                param < 64,
                r < (1u64 << param),
        ;
    }
    let u = ((q as u64) << param) | r;
    let half = u >> 1u64;
    proof {
        assert((u >> 1u64) == u / 2 && ((u & 1 == 0) <==> u % 2 == 0)) by (bit_vector);
    }
    let signed: i64 = if u & 1 == 0 {
        half as i64
    } else {
        -(half as i64) - 1
    };
    Ok(signed)
}

/// Reads `k` Rice-coded residuals, appending them to `samples`.
fn read_rice_samples(stream: &mut BitReader, param: u64, k: usize, samples: &mut Vec<i32>) -> (r:
    Result<(), FlacError>)
    requires
        reader_ok(*old(stream)),
        param <= 30,
    ensures
        old(samples)@.is_prefix_of(final(samples)@),
        reader_ok(*final(stream)),
        final(stream).data@ == old(stream).data@,
        match spec_rice_run(old(stream).data@, old(stream).bit_pos as int, param as nat, k as nat) {
            Ok((s, p)) => r is Ok && final(samples)@ == old(samples)@ + s && final(stream).bit_pos
                == p,
            Err(e) => r == Err::<(), FlacError>(e),
        },
{
    let ghost data = stream.data@;
    let ghost pos0 = stream.bit_pos as int;
    let ghost start = samples@;
    proof {
        reveal(spec_rice_run);
    }
    let mut i: usize = 0;
    while i < k
        invariant
            i <= k,
            param <= 30,
            reader_ok(*stream),
            stream.data@ == data,
            data == old(stream).data@,
            pos0 == old(stream).bit_pos,
            start == old(samples)@,
            start.is_prefix_of(samples@),
            match spec_rice_run(data, pos0, param as nat, i as nat) {
                Ok((s, p)) => samples@ == start + s && stream.bit_pos == p,
                Err(e) => false,
            },
        decreases k - i,
    {
        proof {
            reveal(spec_rice_run);
        }
        match read_rice(stream, param) {
            Ok(v) => {
                proof {
                    lemma_prefix_push(start, samples@, v as i32);
                }
                samples.push(v as i32);
                proof {
                    let (s, p) = spec_rice_run(data, pos0, param as nat, i as nat)->Ok_0;
                    assert(samples@ =~= start + s.push(v as i32));
                }
            },
            Err(e) => {
                proof {
                    lemma_rice_err_stays(data, pos0, param as nat, (i + 1) as nat, k as nat);
                }
                return Err(e);
            },
        }
        i += 1;
    }
    Ok(())
}

/// Once reading some residuals fails, reading more fails in the same way.
proof fn lemma_rice_err_stays(data: Seq<u8>, pos: int, param: nat, a: nat, b: nat)
    requires
        a <= b,
        spec_rice_run(data, pos, param, a) is Err,
    ensures
        spec_rice_run(data, pos, param, b) == spec_rice_run(data, pos, param, a),
    decreases b,
{
    reveal(spec_rice_run);
    if a < b {
        lemma_rice_err_stays(data, pos, param, a, (b - 1) as nat);
    }
}

/// Reads one residual partition of `number` residuals, appending them to `samples`.
#[verifier::rlimit(30)]
fn read_partition(
    stream: &mut BitReader,
    parameter_bit: usize,
    val: u64,
    number: usize,
    samples: &mut Vec<i32>,
) -> (r: Result<(), FlacError>)
    requires
        reader_ok(*old(stream)),
        parameter_bit == 4 || parameter_bit == 5,
        val as nat == pow2(parameter_bit as nat) - 1,
    ensures
        old(samples)@.is_prefix_of(final(samples)@),
        reader_ok(*final(stream)),
        final(stream).data@ == old(stream).data@,
        match spec_partition(
            old(stream).data@,
            old(stream).bit_pos as int,
            parameter_bit as nat,
            val as nat,
            number as nat,
        ) {
            Ok((s, p)) => r is Ok && final(samples)@ == old(samples)@ + s && final(stream).bit_pos
                == p,
            Err(e) => r == Err::<(), FlacError>(e),
        },
{
    proof {
        lemma_prefix_refl(samples@);
    }
    let ghost cur = stream.bit_pos as int;
    if stream.remaining() < parameter_bit {
        return Err(FlacError::UnexpectedEnd);
    }
    let parameter = stream.read_bits(parameter_bit);
    proof {
        lemma_msb_value_bound(stream.data@, cur, parameter_bit as nat);
        lemma2_to64();
    }
    let ghost p1 = stream.bit_pos as int;
    if parameter == val {
        if stream.remaining() < 5 {
            return Err(FlacError::UnexpectedEnd);
        }
        let bits = stream.read_bits(5);
        proof {
            lemma_msb_value_bound(stream.data@, p1, 5);
        }
        read_samples(stream, bits as usize, number, samples)
    } else {
        read_rice_samples(stream, parameter, number, samples)
    }
}

/// Reads the coded residual of a subframe, appending the residuals to `samples` (which holds
/// the warm-up samples).
#[verifier::rlimit(30)]
pub fn try_read_residual(
    stream: &mut BitReader,
    samples: &mut Vec<i32>,
    block_size: u32,
    order: usize,
) -> (r: Result<(), FlacError>)
    requires
        reader_ok(*old(stream)),
    ensures
        old(samples)@.is_prefix_of(final(samples)@),
        reader_ok(*final(stream)),
        final(stream).data@ == old(stream).data@,
        match spec_residual(
            old(stream).data@,
            old(stream).bit_pos as int,
            block_size as nat,
            order as nat,
        ) {
            Ok((s, p)) => r is Ok && final(samples)@ == old(samples)@ + s && final(stream).bit_pos
                == p,
            Err(e) => r == Err::<(), FlacError>(e),
        },
{
    proof {
        lemma_prefix_refl(samples@);
    }
    let ghost data = stream.data@;
    let ghost pos0 = stream.bit_pos as int;
    let ghost start = samples@;
    if stream.remaining() < 6 {
        return Err(FlacError::UnexpectedEnd);
    }
    let residual_indicate = stream.read_bits(2);
    proof {
        lemma_msb_value_bound(data, pos0, 2);
        lemma2_to64();
    }
    let (parameter_bit, val): (usize, u64) = if residual_indicate == 0 {
        (4, 0b1111)
    } else if residual_indicate == 1 {
        (5, 0b11111)
    } else {
        return Err(FlacError::ReservedResidualCoding);
    };
    proof {
        assert(pow2(4) == 16 && pow2(5) == 32);
    }
    let partition_order = stream.read_bits(4);
    proof {
        lemma_msb_value_bound(data, pos0 + 2, 4);
        vstd::arithmetic::power2::lemma_pow2_strictly_increases(partition_order as nat, 16);
        vstd::bits::lemma_u32_shl_is_mul(1, partition_order as u32);
    }
    let partitions = 1u32 << (partition_order as u32);
    let partition_size = (block_size / partitions) as usize;
    if partition_size < order {
        return Err(FlacError::PartitionTooSmall);
    }
    let ghost goal = spec_residual(data, pos0, block_size as nat, order as nat);
    let ghost mut acc: Seq<i32> = seq![];
    proof {
        reveal(spec_partitions);
        assert(samples@ =~= start + acc);
        match spec_partitions(
            data,
            stream.bit_pos as int,
            0,
            partitions as nat,
            partition_size as nat,
            order as nat,
            parameter_bit as nat,
            val as nat,
        ) {
            Ok((rest, p)) => {
                assert(acc + rest =~= rest);
            },
            Err(e) => {},
        }
    }
    let mut i: u32 = 0;
    while i < partitions
        invariant
            i <= partitions,
            partition_size >= order,
            parameter_bit == 4 || parameter_bit == 5,
            val as nat == pow2(parameter_bit as nat) - 1,
            reader_ok(*stream),
            stream.data@ == data,
            data == old(stream).data@,
            pos0 == old(stream).bit_pos,
            start == old(samples)@,
            goal == spec_residual(data, pos0, block_size as nat, order as nat),
            samples@ == start + acc,
            start.is_prefix_of(samples@),
            match spec_partitions(
                data,
                stream.bit_pos as int,
                i as nat,
                partitions as nat,
                partition_size as nat,
                order as nat,
                parameter_bit as nat,
                val as nat,
            ) {
                Ok((rest, p)) => goal == Ok::<(Seq<i32>, int), FlacError>((acc + rest, p)),
                Err(e) => goal == Err::<(Seq<i32>, int), FlacError>(e),
            },
        decreases partitions - i,
    {
        let number = if i == 0 {
            partition_size - order
        } else {
            partition_size
        };
        let ghost cur = stream.bit_pos as int;
        let ghost before = samples@;
        proof {
            reveal(spec_partitions);
            assert(spec_partitions(
                data,
                cur,
                i as nat,
                partitions as nat,
                partition_size as nat,
                order as nat,
                parameter_bit as nat,
                val as nat,
            ) == match spec_partition(data, cur, parameter_bit as nat, val as nat, number as nat) {
                Err(e) => Err(e),
                Ok((s, p)) => match spec_partitions(
                    data,
                    p,
                    (i + 1) as nat,
                    partitions as nat,
                    partition_size as nat,
                    order as nat,
                    parameter_bit as nat,
                    val as nat,
                ) {
                    Err(e) => Err(e),
                    Ok((rest, p2)) => Ok((s + rest, p2)),
                },
            });
        }
        let res = read_partition(stream, parameter_bit, val, number, samples);
        proof {
            lemma_prefix_trans(start, before, samples@);
        }
        match res {
            Ok(()) => {},
            Err(e) => {
                return Err(e);
            },
        }
        proof {
            let run = spec_partition(
                data,
                cur,
                parameter_bit as nat,
                val as nat,
                number as nat,
            )->Ok_0.0;
            assert(samples@ == before + run);
            let ghost_acc = acc + run;
            assert(samples@ =~= start + ghost_acc);
            match spec_partitions(
                data,
                stream.bit_pos as int,
                (i + 1) as nat,
                partitions as nat,
                partition_size as nat,
                order as nat,
                parameter_bit as nat,
                val as nat,
            ) {
                Ok((rest, p)) => {
                    assert(acc + (run + rest) =~= ghost_acc + rest);
                },
                Err(e) => {},
            }
            acc = ghost_acc;
        }
        i += 1;
    }
    proof {
        reveal(spec_partitions);
        assert(acc + seq![] =~= acc);
    }
    Ok(())
}

// ---------------------------------------------------------------------------------------------
// Prediction (RFC 9639, 9.2.5 and 9.2.6)
// ---------------------------------------------------------------------------------------------

/// The prediction of the fixed predictor of the given order for sample `t`, from the samples
/// before it.
pub open spec fn fixed_prediction(s: Seq<i32>, order: nat, t: int) -> int {
    if order == 1 {
        s[t - 1] as int
    } else if order == 2 {
        2 * s[t - 1] - s[t - 2]
    } else if order == 3 {
        3 * s[t - 1] - 3 * s[t - 2] + s[t - 3]
    } else if order == 4 {
        4 * s[t - 1] - 6 * s[t - 2] + 4 * s[t - 3] - s[t - 4]
    } else {
        0
    }
}

/// The first `n` samples once the fixed predictor's predictions are added back: the first
/// `order` samples are kept, each later one gets the prediction from the samples already
/// restored, kept in 32 bits.
pub open spec fn fixed_prefix(s: Seq<i32>, order: nat, n: nat) -> Seq<i32>
    decreases n,
{
    if n == 0 {
        seq![]
    } else {
        let done = fixed_prefix(s, order, (n - 1) as nat);
        if n - 1 < order {
            done.push(s[n - 1])
        } else {
            done.push((fixed_prediction(done, order, n - 1) + s[n - 1]) as i32)
        }
    }
}

/// The samples once the fixed predictor's predictions are added back.
pub open spec fn spec_fixed_restore(s: Seq<i32>, order: nat) -> Seq<i32> {
    fixed_prefix(s, order, s.len())
}

/// The linear prediction sum over the first `k` coefficient terms for sample `t`: term `j` is
/// coefficient `order - 1 - j` times sample `t - order + j`, where `order` is the number of
/// coefficients.
pub open spec fn lpc_sum(s: Seq<i32>, c: Seq<i32>, t: int, k: nat) -> int
    decreases k,
{
    if k == 0 {
        0
    } else {
        lpc_sum(s, c, t, (k - 1) as nat) + c[c.len() - k] * s[t - c.len() + k - 1]
    }
}

/// How many coefficient terms the linear prediction uses: at most 32.
pub open spec fn lpc_terms(order: nat) -> nat {
    if order < 32 {
        order
    } else {
        32
    }
}

/// The first `n` samples once the linear predictions are added back: the first `order`
/// samples are kept; each later one gets the prediction sum shifted right by `shift`, kept in
/// 32 bits, added with wrap-around.
pub open spec fn lpc_prefix(s: Seq<i32>, c: Seq<i32>, shift: u32, n: nat) -> Seq<i32>
    decreases n,
{
    if n == 0 {
        seq![]
    } else {
        let done = lpc_prefix(s, c, shift, (n - 1) as nat);
        if n - 1 < c.len() {
            done.push(s[n - 1])
        } else {
            let predicted = (((lpc_sum(done, c, n - 1, lpc_terms(c.len())) as i128) >> shift)
                as i32);
            done.push(predicted.wrapping_add(s[n - 1]))
        }
    }
}

/// The samples once the linear predictions with coefficients `c` are added back.
pub open spec fn spec_lpc_restore(s: Seq<i32>, c: Seq<i32>, shift: u32) -> Seq<i32> {
    lpc_prefix(s, c, shift, s.len())
}

proof fn lemma_fixed_prefix_len(s: Seq<i32>, order: nat, n: nat)
    ensures
        fixed_prefix(s, order, n).len() == n,
    decreases n,
{
    if n > 0 {
        lemma_fixed_prefix_len(s, order, (n - 1) as nat);
    }
}

proof fn lemma_lpc_prefix_len(s: Seq<i32>, c: Seq<i32>, shift: u32, n: nat)
    ensures
        lpc_prefix(s, c, shift, n).len() == n,
    decreases n,
{
    if n > 0 {
        lemma_lpc_prefix_len(s, c, shift, (n - 1) as nat);
    }
}

/// The input of fixed prediction restoring for samples `s`: the first `order` samples as they
/// are, then each sample minus its prediction from the samples before it.
pub open spec fn fixed_residuals(s: Seq<i32>, order: nat) -> Seq<i32> {
    Seq::new(
        s.len(),
        |t: int|
            if t < order {
                s[t]
            } else {
                (s[t] - fixed_prediction(s, order, t)) as i32
            },
    )
}

/// Law: restoring with the fixed predictor gives back the samples whose residuals it was
/// given, when each residual fits in 32 bits.
pub proof fn lemma_fixed_restore_inverts(s: Seq<i32>, order: nat)
    requires
        forall|t: int|
            order <= t < s.len() ==> i32::MIN <= #[trigger] (s[t] - fixed_prediction(s, order, t))
                <= i32::MAX,
    ensures
        spec_fixed_restore(fixed_residuals(s, order), order) == s,
{
    lemma_fixed_prefix_inverts(s, order, s.len());
    assert(s.take(s.len() as int) =~= s);
}

proof fn lemma_fixed_prefix_inverts(s: Seq<i32>, order: nat, n: nat)
    requires
        n <= s.len(),
        forall|t: int|
            order <= t < s.len() ==> i32::MIN <= #[trigger] (s[t] - fixed_prediction(s, order, t))
                <= i32::MAX,
    ensures
        fixed_prefix(fixed_residuals(s, order), order, n) == s.take(n as int),
    decreases n,
{
    if n > 0 {
        let m = (n - 1) as nat;
        lemma_fixed_prefix_inverts(s, order, m);
        let done = fixed_prefix(fixed_residuals(s, order), order, m);
        if m >= order {
            let t = m as int;
            assert(fixed_prediction(done, order, t) == fixed_prediction(s, order, t));
            assert(i32::MIN <= s[t] - fixed_prediction(s, order, t) <= i32::MAX);
        }
        assert(s.take(m as int).push(s[m as int]) =~= s.take(n as int));
    }
}

/// The input of linear prediction restoring for samples `s`: the first `order` samples as
/// they are, then each sample minus its prediction, with wrap-around.
pub open spec fn lpc_residuals(s: Seq<i32>, c: Seq<i32>, shift: u32) -> Seq<i32> {
    Seq::new(
        s.len(),
        |t: int|
            if t < c.len() {
                s[t]
            } else {
                s[t].wrapping_sub(
                    (((lpc_sum(s, c, t, lpc_terms(c.len())) as i128) >> shift) as i32),
                )
            },
    )
}

/// The prediction sum for sample `t` only reads samples before `t`.
proof fn lemma_lpc_sum_agree(a: Seq<i32>, b: Seq<i32>, c: Seq<i32>, t: int, k: nat)
    requires
        k <= c.len(),
        c.len() <= t,
        forall|i: int| 0 <= i < t ==> a[i] == b[i],
    ensures
        lpc_sum(a, c, t, k) == lpc_sum(b, c, t, k),
    decreases k,
{
    if k > 0 {
        lemma_lpc_sum_agree(a, b, c, t, (k - 1) as nat);
        assert(a[t - c.len() + k - 1] == b[t - c.len() + k - 1]);
    }
}

/// Law: restoring with the linear predictor gives back the samples whose residuals it was
/// given.
pub proof fn lemma_lpc_restore_inverts(s: Seq<i32>, c: Seq<i32>, shift: u32)
    ensures
        spec_lpc_restore(lpc_residuals(s, c, shift), c, shift) == s,
{
    lemma_lpc_prefix_inverts(s, c, shift, s.len());
    assert(s.take(s.len() as int) =~= s);
}

proof fn lemma_lpc_prefix_inverts(s: Seq<i32>, c: Seq<i32>, shift: u32, n: nat)
    requires
        n <= s.len(),
    ensures
        lpc_prefix(lpc_residuals(s, c, shift), c, shift, n) == s.take(n as int),
    decreases n,
{
    if n > 0 {
        let m = (n - 1) as nat;
        lemma_lpc_prefix_inverts(s, c, shift, m);
        let done = lpc_prefix(lpc_residuals(s, c, shift), c, shift, m);
        if m >= c.len() {
            let t = m as int;
            lemma_lpc_sum_agree(done, s, c, t, lpc_terms(c.len()));
            let p = (((lpc_sum(s, c, t, lpc_terms(c.len())) as i128) >> shift) as i32);
            let x = s[t];
            assert(p.wrapping_add(x.wrapping_sub(p)) == x);
        }
        assert(s.take(m as int).push(s[m as int]) =~= s.take(n as int));
    }
}

/// Adds the fixed predictor's predictions back to the residuals, in place; the first `order`
/// samples are the warm-up samples.
pub fn fixed_restore(samples: &mut [i32], order: usize)
    requires
        order <= 4,
    ensures
        final(samples)@ == spec_fixed_restore(old(samples)@, order as nat),
{
    let ghost orig = samples@;
    let len: usize = samples.len();
    let mut t: usize = 0;
    while t < len
        invariant
            t <= len,
            len == orig.len(),
            samples@.len() == len,
            order <= 4,
            samples@ == fixed_prefix(orig, order as nat, t as nat) + orig.subrange(
                t as int,
                len as int,
            ),
        decreases len - t,
    {
        proof {
            lemma_fixed_prefix_len(orig, order as nat, t as nat);
            assert(samples@[t as int] == orig[t as int]);
            assert forall|j: int| 0 <= j < t implies samples@[j] == fixed_prefix(
                orig,
                order as nat,
                t as nat,
            )[j] by {}
        }
        let ghost done = fixed_prefix(orig, order as nat, t as nat);
        if t >= order {
            let p: i64 = if order == 1 {
                samples[t - 1] as i64
            } else if order == 2 {
                2 * samples[t - 1] as i64 - samples[t - 2] as i64
            } else if order == 3 {
                3 * samples[t - 1] as i64 - 3 * samples[t - 2] as i64 + samples[t - 3] as i64
            } else if order == 4 {
                4 * samples[t - 1] as i64 - 6 * samples[t - 2] as i64 + 4 * samples[t - 3] as i64
                    - samples[t - 4] as i64
            } else {
                0
            };
            proof {
                assert(p == fixed_prediction(done, order as nat, t as int));
            }
            samples[t] = (p + samples[t] as i64) as i32;
        }
        proof {
            assert(samples@ =~= fixed_prefix(orig, order as nat, (t + 1) as nat) + orig.subrange(
                t + 1,
                len as int,
            ));
        }
        t += 1;
    }
    proof {
        assert(samples@ =~= fixed_prefix(orig, order as nat, len as nat));
    }
}

proof fn lemma_lpc_sum_bound(s: Seq<i32>, c: Seq<i32>, t: int, k: nat)
    ensures
        -k * 0x4000_0000_0000_0000 <= lpc_sum(s, c, t, k) <= k * 0x4000_0000_0000_0000,
    decreases k,
{
    if k > 0 {
        lemma_lpc_sum_bound(s, c, t, (k - 1) as nat);
        let a = c[c.len() - k];
        let b = s[t - c.len() + k - 1];
        assert(-0x4000_0000_0000_0000 <= a * b <= 0x4000_0000_0000_0000) by (nonlinear_arith)
            requires
                -0x8000_0000 <= a < 0x8000_0000,
                -0x8000_0000 <= b < 0x8000_0000,
        ;
    }
}

/// Adds the linear predictions back to the residuals, in place; the first
/// `qlp_coefficients.len()` samples are the warm-up samples.
pub fn lpc_restore(samples: &mut [i32], qlp_coefficients: &[i32], prediction_right_shift_bits: u32)
    requires
        prediction_right_shift_bits < 64,
    ensures
        final(samples)@ == spec_lpc_restore(
            old(samples)@,
            qlp_coefficients@,
            prediction_right_shift_bits,
        ),
{
    let ghost orig = samples@;
    let ghost c = qlp_coefficients@;
    let order = qlp_coefficients.len();
    let len = samples.len();
    let n = if order < 32 {
        order
    } else {
        32
    };
    let mut t: usize = 0;
    while t < len
        invariant
            t <= len,
            len == orig.len(),
            samples@.len() == len,
            order == c.len(),
            c == qlp_coefficients@,
            n == lpc_terms(order as nat),
            prediction_right_shift_bits < 64,
            samples@ == lpc_prefix(orig, c, prediction_right_shift_bits, t as nat) + orig.subrange(
                t as int,
                len as int,
            ),
        decreases len - t,
    {
        proof {
            lemma_lpc_prefix_len(orig, c, prediction_right_shift_bits, t as nat);
            assert(samples@[t as int] == orig[t as int]);
        }
        let ghost done = lpc_prefix(orig, c, prediction_right_shift_bits, t as nat);
        if t >= order {
            let mut pred: i128 = 0;
            let mut j: usize = 0;
            while j < n
                invariant
                    j <= n,
                    n <= order,
                    n <= 32,
                    order <= t < len,
                    order == c.len(),
                    c == qlp_coefficients@,
                    samples@.len() == len,
                    forall|k: int| 0 <= k < t ==> samples@[k] == done[k],
                    done.len() == t,
                    pred == lpc_sum(done, c, t as int, j as nat),
                decreases n - j,
            {
                proof {
                    lemma_lpc_sum_bound(done, c, t as int, j as nat);
                    let a = qlp_coefficients@[(order - 1 - j) as int];
                    let b = samples@[(t - order + j) as int];
                    assert(-0x4000_0000_0000_0000 <= a * b <= 0x4000_0000_0000_0000)
                        by (nonlinear_arith)
                        requires
                            -0x8000_0000 <= a < 0x8000_0000,
                            -0x8000_0000 <= b < 0x8000_0000,
                    ;
                    assert(order - 1 - j == c.len() - (j + 1));
                    assert(t - order + j == t - c.len() + (j + 1) - 1);
                }
                pred = pred + (qlp_coefficients[order - 1 - j] as i128) * (samples[t - order
                    + j] as i128);
                j += 1;
            }
            let predicted = (pred >> prediction_right_shift_bits) as i32;
            samples[t] = predicted.wrapping_add(samples[t]);
        }
        proof {
            assert(samples@ =~= lpc_prefix(orig, c, prediction_right_shift_bits, (t + 1) as nat)
                + orig.subrange(t + 1, len as int));
        }
        t += 1;
    }
    proof {
        assert(samples@ =~= lpc_prefix(orig, c, prediction_right_shift_bits, len as nat));
    }
}

// ---------------------------------------------------------------------------------------------
// Subframes (RFC 9639, 9.2)
// ---------------------------------------------------------------------------------------------

/// The kinds of subframe.
#[derive(Debug, Clone, Copy, PartialEq, Eq, Structural)]
pub enum SubframeType {
    /// One sample value for the whole block.
    Constant,
    /// Every sample stored as it is.
    Verbatim,
    /// A reserved subframe type.
    Reserved,
    /// A fixed predictor of order 0 to 4.
    FixedPredictor,
    /// A linear predictor of order 1 to 32.
    LinearPredictor,
}

/// A subframe's kind and, for the predictors, its order.
#[derive(Debug, Clone, Copy, PartialEq, Eq, Structural)]
pub struct Subframe {
    pub subframe_type: SubframeType,
    pub order: Option<u8>,
}

/// Reading a fixed predictor subframe: `order` warm-up samples, then the residual; the
/// predictions are then added back.
pub open spec fn spec_fixed_subframe(
    data: Seq<u8>,
    pos: int,
    block_size: nat,
    bps: nat,
    order: nat,
) -> Result<(Seq<i32>, int), FlacError> {
    match spec_read_samples(data, pos, bps, order) {
        Err(e) => Err(e),
        Ok((warm, p)) => match spec_residual(data, p, block_size, order) {
            Err(e) => Err(e),
            Ok((res, p2)) => Ok((spec_fixed_restore(warm + res, order), p2)),
        },
    }
}

/// Reading a linear predictor subframe: `order` warm-up samples, the coefficient precision
/// (4 bits, plus one), the right shift (5-bit signed), `order` coefficients, then the residual;
/// the predictions are then added back. A negative shift is refused.
pub open spec fn spec_lpc_subframe(
    data: Seq<u8>,
    pos: int,
    block_size: nat,
    bps: nat,
    order: nat,
) -> Result<(Seq<i32>, int), FlacError> {
    match spec_read_samples(data, pos, bps, order) {
        Err(e) => Err(e),
        Ok((warm, p1)) => {
            if p1 + 4 > 8 * data.len() {
                Err(FlacError::UnexpectedEnd)
            } else {
                let precision = msb_value(data, p1, 4) + 1;
                match spec_read_sample(data, p1 + 4, 5) {
                    Err(e) => Err(e),
                    Ok((shift, p2)) => match spec_read_samples(data, p2, precision, order) {
                        Err(e) => Err(e),
                        Ok((coefficients, p3)) => match spec_residual(data, p3, block_size, order) {
                            Err(e) => Err(e),
                            Ok((res, p4)) => {
                                if shift < 0 {
                                    Err(FlacError::NegativeShift)
                                } else {
                                    Ok(
                                        (
                                            spec_lpc_restore(warm + res, coefficients, shift as u32),
                                            p4,
                                        ),
                                    )
                                }
                            },
                        },
                    },
                }
            }
        },
    }
}

/// A sample of a subframe with wasted bits, shifted back up by `k` bits and kept to 32 bits.
pub open spec fn shift_sample(s: i32, k: nat) -> i32 {
    if k >= 32 {
        0
    } else {
        ((s as int) * pow2(k)) as i32
    }
}

/// Each sample shifted up by `k` bits.
pub open spec fn shift_samples(s: Seq<i32>, k: nat) -> Seq<i32> {
    Seq::new(s.len(), |i: int| shift_sample(s[i], k))
}

/// Reading the samples of a subframe of the given type with `bps` bits per sample.
#[verifier::opaque]
pub open spec fn spec_subframe_body(
    data: Seq<u8>,
    pos: int,
    subframe_type: nat,
    bps: nat,
    block_size: nat,
) -> Result<(Subframe, Seq<i32>, int), FlacError> {
    if subframe_type == 0 {
        match spec_read_sample(data, pos, (bps as u32) as nat) {
            Err(e) => Err(e),
            Ok((v, p)) => Ok(
                (
                    Subframe { subframe_type: SubframeType::Constant, order: None },
                    Seq::new(block_size, |i: int| (v as i64) as i32),
                    p,
                ),
            ),
        }
    } else if subframe_type == 1 {
        match spec_read_samples(data, pos, (bps as u32) as nat, block_size) {
            Err(e) => Err(e),
            Ok((s, p)) => Ok(
                (Subframe { subframe_type: SubframeType::Verbatim, order: None }, s, p),
            ),
        }
    } else if 8 <= subframe_type <= 12 {
        let order = (subframe_type - 8) as nat;
        match spec_fixed_subframe(data, pos, block_size, bps, order) {
            Err(e) => Err(e),
            Ok((s, p)) => Ok(
                (
                    Subframe {
                        subframe_type: SubframeType::FixedPredictor,
                        order: Some(order as u8),
                    },
                    s,
                    p,
                ),
            ),
        }
    } else if 32 <= subframe_type <= 63 {
        let order = (subframe_type - 31) as nat;
        match spec_lpc_subframe(data, pos, block_size, bps, order) {
            Err(e) => Err(e),
            Ok((s, p)) => Ok(
                (
                    Subframe {
                        subframe_type: SubframeType::LinearPredictor,
                        order: Some(order as u8),
                    },
                    s,
                    p,
                ),
            ),
        }
    } else {
        Err(FlacError::ReservedSubframeType)
    }
}

/// Reading a subframe with `precision` bits per sample: a zero bit, the 6-bit type, the
/// wasted bits flag, then the samples (RFC 9639, 9.2.2). When the flag is set, `k - 1` follows
/// in unary (zero bits, then a one bit): the samples are stored with `precision - k` bits and
/// each is shifted up by `k` bits.
pub open spec fn spec_read_subframe(data: Seq<u8>, pos: int, precision: nat, block_size: nat) -> Result<
    (Subframe, Seq<i32>, int),
    FlacError,
> {
    if pos < 0 || pos + 1 > 8 * data.len() {
        Err(FlacError::UnexpectedEnd)
    } else if msb_bit(data, pos) != 0 {
        Err(FlacError::SubframePadding)
    } else if pos + 8 > 8 * data.len() {
        Err(FlacError::UnexpectedEnd)
    } else {
        let subframe_type = msb_value(data, pos + 1, 6);
        if msb_bit(data, pos + 7) == 0 {
            spec_subframe_body(data, pos + 8, subframe_type, precision, block_size)
        } else {
            match spec_unary(data, pos + 8) {
                None => Err(FlacError::UnexpectedEnd),
                Some((q, p)) => {
                    let k = q + 1;
                    if k > precision {
                        Err(FlacError::WastedBits)
                    } else {
                        match spec_subframe_body(
                            data,
                            p,
                            subframe_type,
                            (precision - k) as nat,
                            block_size,
                        ) {
                            Err(e) => Err(e),
                            Ok((sub, samples, p2)) => Ok((sub, shift_samples(samples, k), p2)),
                        }
                    }
                },
            }
        }
    }
}

/// Reads a fixed predictor subframe of the given order.
pub fn try_read_subframe_fixed(stream: &mut BitReader, block_size: u32, bps: usize, order: usize) -> (r:
    Result<Vec<i32>, FlacError>)
    requires
        reader_ok(*old(stream)),
        order <= 4,
    ensures
        reader_ok(*final(stream)),
        final(stream).data@ == old(stream).data@,
        match spec_fixed_subframe(
            old(stream).data@,
            old(stream).bit_pos as int,
            block_size as nat,
            bps as nat,
            order as nat,
        ) {
            Ok((s, p)) => r matches Ok(v) && v@ == s && final(stream).bit_pos == p,
            Err(e) => r == Err::<Vec<i32>, FlacError>(e),
        },
{
    let mut samples: Vec<i32> = Vec::new();
    let ghost empty = samples@;
    match read_samples(stream, bps, order, &mut samples) {
        Ok(()) => {},
        Err(e) => {
            return Err(e);
        },
    }
    proof {
        assert(samples@ =~= empty + samples@);
    }
    let ghost warm = samples@;
    match try_read_residual(stream, &mut samples, block_size, order) {
        Ok(()) => {},
        Err(e) => {
            return Err(e);
        },
    }
    fixed_restore(samples.as_mut_slice(), order);
    proof {
        assert(warm =~= seq![] + warm);
    }
    Ok(samples)
}

/// Reads a linear predictor subframe of the given order.
#[verifier::rlimit(30)]
pub fn try_read_subframe_lpc(stream: &mut BitReader, block_size: u32, bps: usize, order: usize) -> (r:
    Result<Vec<i32>, FlacError>)
    requires
        reader_ok(*old(stream)),
    ensures
        reader_ok(*final(stream)),
        final(stream).data@ == old(stream).data@,
        match spec_lpc_subframe(
            old(stream).data@,
            old(stream).bit_pos as int,
            block_size as nat,
            bps as nat,
            order as nat,
        ) {
            Ok((s, p)) => r matches Ok(v) && v@ == s && final(stream).bit_pos == p,
            Err(e) => r == Err::<Vec<i32>, FlacError>(e),
        },
{
    let mut samples: Vec<i32> = Vec::new();
    let ghost empty = samples@;
    match read_samples(stream, bps, order, &mut samples) {
        Ok(()) => {},
        Err(e) => {
            return Err(e);
        },
    }
    proof {
        assert(samples@ =~= empty + samples@);
    }
    let ghost warm = samples@;
    if stream.remaining() < 4 {
        return Err(FlacError::UnexpectedEnd);
    }
    let ghost p1 = stream.bit_pos as int;
    let precision_bits = stream.read_bits(4);
    proof {
        lemma_msb_value_bound(stream.data@, p1, 4);
        lemma2_to64();
    }
    let predictor_coefficient_precision = precision_bits as usize + 1;
    proof {
        if p1 + 9 <= 8 * stream.data@.len() {
            lemma_msb_value_bound(stream.data@, p1 + 4, 5);
            lemma_sign_extend_range(msb_value(stream.data@, p1 + 4, 5), 5);
            assert(pow2(4) == 16);
        }
    }
    let prediction_right_shift_bits = match read_sample(stream, 5) {
        Ok(v) => v,
        Err(e) => {
            return Err(e);
        },
    };
    let mut qlp_coefficients: Vec<i32> = Vec::new();
    let ghost no_coefficients = qlp_coefficients@;
    match read_samples(stream, predictor_coefficient_precision, order, &mut qlp_coefficients) {
        Ok(()) => {},
        Err(e) => {
            return Err(e);
        },
    }
    proof {
        assert(qlp_coefficients@ =~= no_coefficients + qlp_coefficients@);
    }
    match try_read_residual(stream, &mut samples, block_size, order) {
        Ok(()) => {},
        Err(e) => {
            return Err(e);
        },
    }
    if prediction_right_shift_bits < 0 {
        return Err(FlacError::NegativeShift);
    }
    lpc_restore(
        samples.as_mut_slice(),
        qlp_coefficients.as_slice(),
        prediction_right_shift_bits as u32,
    );
    proof {
        assert(warm =~= seq![] + warm);
    }
    Ok(samples)
}

/// Reads a unary number (zero bits up to and including a one bit) and gives the number of bits
/// read, one more than the number.
fn read_unary_len(stream: &mut BitReader) -> (r: Result<usize, FlacError>)
    requires
        reader_ok(*old(stream)),
    ensures
        reader_ok(*final(stream)),
        final(stream).data@ == old(stream).data@,
        match spec_unary(old(stream).data@, old(stream).bit_pos as int) {
            Some((q, p)) => r == Ok::<usize, FlacError>((q + 1) as usize) && final(stream).bit_pos
                == p && p == old(stream).bit_pos + q + 1,
            None => r == Err::<usize, FlacError>(FlacError::UnexpectedEnd),
        },
{
    let ghost data = stream.data@;
    let ghost pos0 = stream.bit_pos as int;
    let start = stream.position();
    loop
        invariant
            reader_ok(*stream),
            stream.data@ == data,
            data == old(stream).data@,
            pos0 == old(stream).bit_pos,
            start == pos0,
            pos0 <= stream.bit_pos,
            match spec_unary(data, stream.bit_pos as int) {
                Some((q, p)) => spec_unary(data, pos0) == Some(
                    ((q + (stream.bit_pos - pos0)) as nat, p),
                ),
                None => spec_unary(data, pos0) is None,
            },
        decreases 8 * data.len() - stream.bit_pos,
    {
        if stream.remaining() < 1 {
            return Err(FlacError::UnexpectedEnd);
        }
        let ghost cur = stream.bit_pos as int;
        let bit = stream.read_bits(1);
        proof {
            reveal_with_fuel(msb_value, 2);
            assert(bit == msb_bit(data, cur));
            assert(spec_unary(data, cur) == if msb_bit(data, cur) == 1 {
                Some((0nat, cur + 1))
            } else {
                match spec_unary(data, cur + 1) {
                    Some((q, p)) => Some(((q + 1) as nat, p)),
                    None => None,
                }
            });
        }
        if bit == 1 {
            return Ok(stream.position() - start);
        }
    }
}

/// Shifts each sample up by `k` bits, keeping 32 bits.
fn shift_up(samples: &mut Vec<i32>, k: usize)
    ensures
        final(samples)@ == shift_samples(old(samples)@, k as nat),
{
    let n = samples.len();
    let mut i: usize = 0;
    while i < n
        invariant
            n == old(samples)@.len(),
            samples@.len() == n,
            i <= n,
            forall|j: int| 0 <= j < i ==> samples@[j] == shift_sample(old(samples)@[j], k as nat),
            forall|j: int| i <= j < n ==> samples@[j] == old(samples)@[j],
        decreases n - i,
    {
        let s = samples[i];
        let v: i32 = if k >= 32 {
            0
        } else {
            let kk = k as u64;
            let m: u64 = 1u64 << kk;
            proof {
                vstd::bits::lemma_u64_pow2_no_overflow(kk as nat);
                vstd::bits::lemma_u64_shl_is_mul(1u64, kk);
                vstd::arithmetic::power2::lemma_pow2_strictly_increases(kk as nat, 32);
                assert(pow2(32) == 0x1_0000_0000) by {
                    lemma2_to64();
                }
            }
            assert(i64::MIN <= (s as int) * (m as int) <= i64::MAX) by (nonlinear_arith)
                requires
                    i32::MIN <= s <= i32::MAX,
                    1 <= m < 0x1_0000_0000,
            ;
            let wide: i64 = (s as i64) * (m as i64);
            (#[verifier::truncate] (wide as i32))
        };
        samples.set(i, v);
        i += 1;
    }
    proof {
        assert(samples@ =~= shift_samples(old(samples)@, k as nat));
    }
}

/// Reads the samples of a subframe of the given type with `precision` bits per sample.
#[verifier::rlimit(30)]
fn read_subframe_body(stream: &mut BitReader, subframe_type: u8, precision: usize, block_size: u32) -> (r:
    Result<(Subframe, Vec<i32>), FlacError>)
    requires
        reader_ok(*old(stream)),
        subframe_type < 64,
    ensures
        reader_ok(*final(stream)),
        final(stream).data@ == old(stream).data@,
        match spec_subframe_body(
            old(stream).data@,
            old(stream).bit_pos as int,
            subframe_type as nat,
            precision as nat,
            block_size as nat,
        ) {
            Ok((sub, s, p)) => r matches Ok((sub2, v)) && sub2 == sub && v@ == s
                && final(stream).bit_pos == p,
            Err(e) => r == Err::<(Subframe, Vec<i32>), FlacError>(e),
        },
{
    proof {
        reveal(spec_subframe_body);
    }
    let bps = precision as u32;
    if subframe_type == 0 {
        match try_read_subframe_constant(stream, block_size, bps) {
            Ok(s) => Ok((Subframe { subframe_type: SubframeType::Constant, order: None }, s)),
            Err(e) => Err(e),
        }
    } else if subframe_type == 1 {
        match try_read_subframe_verbatim(stream, block_size, bps) {
            Ok(s) => Ok((Subframe { subframe_type: SubframeType::Verbatim, order: None }, s)),
            Err(e) => Err(e),
        }
    } else if 8 <= subframe_type && subframe_type <= 12 {
        let order = subframe_type & 7;
        assert(8 <= subframe_type <= 12 ==> subframe_type & 7 == subframe_type - 8) by (bit_vector);
        match try_read_subframe_fixed(stream, block_size, precision, order as usize) {
            Ok(s) => Ok(
                (Subframe { subframe_type: SubframeType::FixedPredictor, order: Some(order) }, s),
            ),
            Err(e) => Err(e),
        }
    } else if 32 <= subframe_type {
        assert(32 <= subframe_type < 64 ==> (subframe_type & 0b11111) + 1 == subframe_type - 31
            && (subframe_type & 0b11111) < 32) by (bit_vector);
        let order = (subframe_type & 0b11111) + 1;
        match try_read_subframe_lpc(stream, block_size, precision, order as usize) {
            Ok(s) => Ok(
                (Subframe { subframe_type: SubframeType::LinearPredictor, order: Some(order) }, s),
            ),
            Err(e) => Err(e),
        }
    } else {
        Err(FlacError::ReservedSubframeType)
    }
}

/// Reads a subframe whose samples have `precision` bits, giving its kind and its samples.
#[verifier::rlimit(30)]
pub fn try_read_subframe(stream: &mut BitReader, precision: usize, block_size: u32) -> (r: Result<
    (Subframe, Vec<i32>),
    FlacError,
>)
    requires
        reader_ok(*old(stream)),
    ensures
        reader_ok(*final(stream)),
        final(stream).data@ == old(stream).data@,
        match spec_read_subframe(
            old(stream).data@,
            old(stream).bit_pos as int,
            precision as nat,
            block_size as nat,
        ) {
            Ok((sub, s, p)) => r matches Ok((sub2, v)) && sub2 == sub && v@ == s
                && final(stream).bit_pos == p,
            Err(e) => r == Err::<(Subframe, Vec<i32>), FlacError>(e),
        },
{
    let ghost data = stream.data@;
    let ghost pos0 = stream.bit_pos as int;
    if stream.remaining() < 1 {
        return Err(FlacError::UnexpectedEnd);
    }
    let padding = stream.read_bits(1);
    proof {
        reveal_with_fuel(msb_value, 2);
    }
    if padding != 0 {
        return Err(FlacError::SubframePadding);
    }
    if stream.remaining() < 7 {
        return Err(FlacError::UnexpectedEnd);
    }
    let subframe_type = stream.read_bits(6) as u8;
    proof {
        lemma_msb_value_bound(data, pos0 + 1, 6);
        lemma2_to64();
    }
    let wasted = stream.read_bits(1);
    if wasted == 0 {
        return read_subframe_body(stream, subframe_type, precision, block_size);
    }
    let k = match read_unary_len(stream) {
        Ok(k) => k,
        Err(e) => {
            return Err(e);
        },
    };
    if k > precision {
        return Err(FlacError::WastedBits);
    }
    match read_subframe_body(stream, subframe_type, precision - k, block_size) {
        Ok((sub, mut samples)) => {
            shift_up(&mut samples, k);
            Ok((sub, samples))
        },
        Err(e) => Err(e),
    }
}

/// Reads a constant subframe whose sample is present. `try_read_subframe_constant` is the form
/// that reports a truncated one.
pub fn read_subframe_constant(stream: &mut BitReader, block_size: u32, bps: u32) -> (samples: Vec<
    i32,
>)
    requires
        reader_ok(*old(stream)),
        spec_read_sample(old(stream).data@, old(stream).bit_pos as int, bps as nat) is Ok,
    ensures
        reader_ok(*final(stream)),
        final(stream).data@ == old(stream).data@,
        match spec_read_sample(old(stream).data@, old(stream).bit_pos as int, bps as nat) {
            Ok((v, p)) => samples@ == Seq::new(block_size as nat, |i: int| (v as i64) as i32)
                && final(stream).bit_pos == p,
            Err(_) => false,
        },
{
    try_read_subframe_constant(stream, block_size, bps).unwrap()
}

/// Reads a verbatim subframe whose samples are all present. `try_read_subframe_verbatim` is the
/// form that reports a truncated one.
pub fn read_subframe_verbatim(stream: &mut BitReader, block_size: u32, bps: u32) -> (samples: Vec<
    i32,
>)
    requires
        reader_ok(*old(stream)),
        spec_read_samples(
            old(stream).data@,
            old(stream).bit_pos as int,
            bps as nat,
            block_size as nat,
        ) is Ok,
    ensures
        reader_ok(*final(stream)),
        final(stream).data@ == old(stream).data@,
        spec_read_samples(old(stream).data@, old(stream).bit_pos as int, bps as nat, block_size as nat)
            == Ok::<(Seq<i32>, int), FlacError>((samples@, final(stream).bit_pos as int)),
{
    try_read_subframe_verbatim(stream, block_size, bps).unwrap()
}

/// Reads a valid coded residual, appending the residuals to `samples`. `try_read_residual` is
/// the form that reports an invalid or truncated one.
pub fn read_residual(stream: &mut BitReader, samples: &mut Vec<i32>, block_size: u32, order: usize)
    requires
        reader_ok(*old(stream)),
        spec_residual(old(stream).data@, old(stream).bit_pos as int, block_size as nat, order as nat)
            is Ok,
    ensures
        old(samples)@.is_prefix_of(final(samples)@),
        reader_ok(*final(stream)),
        final(stream).data@ == old(stream).data@,
        match spec_residual(
            old(stream).data@,
            old(stream).bit_pos as int,
            block_size as nat,
            order as nat,
        ) {
            Ok((s, p)) => final(samples)@ == old(samples)@ + s && final(stream).bit_pos == p,
            Err(_) => false,
        },
{
    try_read_residual(stream, samples, block_size, order).unwrap()
}

/// Reads a valid fixed predictor subframe of the given order. `try_read_subframe_fixed` is the
/// form that reports an invalid or truncated one.
pub fn read_subframe_fixed(stream: &mut BitReader, block_size: u32, bps: usize, order: usize) -> (samples:
    Vec<i32>)
    requires
        reader_ok(*old(stream)),
        order <= 4,
        spec_fixed_subframe(
            old(stream).data@,
            old(stream).bit_pos as int,
            block_size as nat,
            bps as nat,
            order as nat,
        ) is Ok,
    ensures
        reader_ok(*final(stream)),
        final(stream).data@ == old(stream).data@,
        spec_fixed_subframe(
            old(stream).data@,
            old(stream).bit_pos as int,
            block_size as nat,
            bps as nat,
            order as nat,
        ) == Ok::<(Seq<i32>, int), FlacError>((samples@, final(stream).bit_pos as int)),
{
    try_read_subframe_fixed(stream, block_size, bps, order).unwrap()
}

/// Reads a valid linear predictor subframe of the given order. `try_read_subframe_lpc` is the
/// form that reports an invalid or truncated one.
pub fn read_subframe_lpc(stream: &mut BitReader, block_size: u32, bps: usize, order: usize) -> (samples:
    Vec<i32>)
    requires
        reader_ok(*old(stream)),
        spec_lpc_subframe(
            old(stream).data@,
            old(stream).bit_pos as int,
            block_size as nat,
            bps as nat,
            order as nat,
        ) is Ok,
    ensures
        reader_ok(*final(stream)),
        final(stream).data@ == old(stream).data@,
        spec_lpc_subframe(
            old(stream).data@,
            old(stream).bit_pos as int,
            block_size as nat,
            bps as nat,
            order as nat,
        ) == Ok::<(Seq<i32>, int), FlacError>((samples@, final(stream).bit_pos as int)),
{
    try_read_subframe_lpc(stream, block_size, bps, order).unwrap()
}

/// Reads a valid subframe whose samples have `precision` bits, giving its kind and its
/// samples. `try_read_subframe` is the form that reports an invalid or truncated one.
pub fn read_subframe(stream: &mut BitReader, precision: usize, block_size: u32) -> (r: (
    Subframe,
    Vec<i32>,
))
    requires
        reader_ok(*old(stream)),
        spec_read_subframe(
            old(stream).data@,
            old(stream).bit_pos as int,
            precision as nat,
            block_size as nat,
        ) is Ok,
    ensures
        reader_ok(*final(stream)),
        final(stream).data@ == old(stream).data@,
        spec_read_subframe(
            old(stream).data@,
            old(stream).bit_pos as int,
            precision as nat,
            block_size as nat,
        ) == Ok::<(Subframe, Seq<i32>, int), FlacError>((r.0, r.1@, final(stream).bit_pos as int)),
{
    try_read_subframe(stream, precision, block_size).unwrap()
}

} // verus!
