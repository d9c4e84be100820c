use vstd::prelude::*;
use vstd::arithmetic::power2::pow2;
use crate::bits::{BitReader, spec_read_bits, align_up, lemma_bits_value_bound, bits_value, bit_at, lemma_bits16};
use crate::error::PngError;
use crate::adler::{adler32, spec_adler32};
use crate::endian::{be_u32, spec_be_u32};
use crate::huffman::{
    Huffman, try_decode, construct, spec_decode, huffman_wf, first_index, code_length_from, code_counts,
    code_symbols, lemma_code_length_from_ge, lemma_decode_agree, lemma_first_index_mono,
    nonzero_lengths, lengths_ok, count_len, lemma_code_agree, lemma_table_len_nonzero,
};

verus! {

/// Base lengths of the length symbols 257..285.
pub const LENS: [u64; 29] = [
    3, 4, 5, 6, 7, 8, 9, 10, 11, 13, 15, 17, 19, 23, 27, 31, 35, 43, 51, 59, 67, 83, 99, 115, 131,
    163, 195, 227, 258,
];

/// Extra bits of the length symbols 257..285.
pub const LEXT: [usize; 29] = [
    0, 0, 0, 0, 0, 0, 0, 0, 1, 1, 1, 1, 2, 2, 2, 2, 3, 3, 3, 3, 4, 4, 4, 4, 5, 5, 5, 5, 0,
];

/// Base distances of the distance symbols 0..29.
pub const DISTS: [u64; 30] = [
    1, 2, 3, 4, 5, 7, 9, 13, 17, 25, 33, 49, 65, 97, 129, 193, 257, 385, 513, 769, 1025, 1537,
    2049, 3073, 4097, 6145, 8193, 12289, 16385, 24577,
];

/// Extra bits of the distance symbols 0..29.
pub const DEXT: [usize; 30] = [
    0, 0, 0, 0, 1, 1, 2, 2, 3, 3, 4, 4, 5, 5, 6, 6, 7, 7, 8, 8, 9, 9, 10, 10, 11, 11, 12, 12, 13,
    13,
];

/// The order in which a dynamic block gives the code lengths of the code length alphabet.
pub const ORDER: [usize; 19] = [16, 17, 18, 0, 8, 7, 9, 6, 10, 5, 11, 4, 12, 3, 13, 2, 14, 1, 15];

/// The number of entries of the code length table of a dynamic block.
pub const MAX_LENGTHS: usize = 316;

// ---------------------------------------------------------------------------------------------
// Specification of deflate decoding (RFC 1951)
// ---------------------------------------------------------------------------------------------

/// Appending `len` bytes, each a copy of the byte `dist` places before it.
pub open spec fn copy_match(out: Seq<u8>, dist: int, len: nat) -> Seq<u8>
    decreases len,
{
    if len == 0 {
        out
    } else {
        copy_match(out.push(out[out.len() - dist]), dist, (len - 1) as nat)
    }
}

/// The counts of a code as far as decoding looks at them.
pub open spec fn counts_view(count: Seq<usize>) -> Seq<usize> {
    count.take(16)
}

/// The symbol table of a code as far as decoding looks at it.
pub open spec fn symbols_view(count: Seq<usize>, symbol: Seq<usize>) -> Seq<usize> {
    symbol.take(first_index(count, 16))
}

pub proof fn lemma_decode_advances(count: Seq<usize>, symbol: Seq<usize>, data: Seq<u8>, pos: int)
    ensures
        spec_decode(count, symbol, data, pos) matches Some((s, p)) ==> pos < p <= 8 * data.len(),
{
    lemma_code_length_from_ge(count, data, pos, 1);
}

/// Decoding the compressed data of a block from bit `pos` with the literal/length code
/// (`lc`, `ls`) and the distance code (`dc`, `ds`), appending to `out`, up to and including the
/// end-of-block symbol. Gives the position after the block and the output.
pub open spec fn spec_codes(
    data: Seq<u8>,
    pos: int,
    out: Seq<u8>,
    lc: Seq<usize>,
    ls: Seq<usize>,
    dc: Seq<usize>,
    ds: Seq<usize>,
) -> Result<(int, Seq<u8>), PngError>
    decreases 8 * data.len() - pos,
{
    match spec_decode(lc, ls, data, pos) {
        None => Err(PngError::UnexpectedEnd),
        Some((sym, p1)) => {
            proof {
                lemma_decode_advances(lc, ls, data, pos);
            }
            if sym < 256 {
                spec_codes(data, p1, out.push(sym as u8), lc, ls, dc, ds)
            } else if sym == 256 {
                Ok((p1, out))
            } else if sym - 257 > 28 {
                Err(PngError::InvalidLengthSymbol)
            } else {
                let s = sym - 257;
                match spec_read_bits(data, p1, LEXT[s] as nat) {
                    None => Err(PngError::UnexpectedEnd),
                    Some((e, p2)) => {
                        let len = (LENS[s] + e) as nat;
                        match spec_decode(dc, ds, data, p2) {
                            None => Err(PngError::UnexpectedEnd),
                            Some((d, p3)) => {
                                proof {
                                    lemma_decode_advances(dc, ds, data, p2);
                                }
                                if d >= 30 {
                                    Err(PngError::InvalidDistanceSymbol)
                                } else {
                                    match spec_read_bits(data, p3, DEXT[d as int] as nat) {
                                        None => Err(PngError::UnexpectedEnd),
                                        Some((e2, p4)) => {
                                            let dist = DISTS[d as int] + e2;
                                            if dist > out.len() {
                                                Err(PngError::DistanceTooFar)
                                            } else {
                                                spec_codes(
                                                    data,
                                                    p4,
                                                    copy_match(out, dist, len),
                                                    lc,
                                                    ls,
                                                    dc,
                                                    ds,
                                                )
                                            }
                                        },
                                    }
                                }
                            },
                        }
                    },
                }
            }
        },
    }
}

/// A stored block from bit `pos`: skip to a byte boundary, read the length and its one's
/// complement, and copy that many bytes.
pub open spec fn spec_stored(data: Seq<u8>, pos: int, out: Seq<u8>) -> Result<
    (int, Seq<u8>),
    PngError,
> {
    match spec_read_bits(data, align_up(pos), 16) {
        None => Err(PngError::UnexpectedEnd),
        Some((len, p1)) => match spec_read_bits(data, p1, 16) {
            None => Err(PngError::UnexpectedEnd),
            Some((nlen, p2)) => {
                if len + nlen != 65535 {
                    Err(PngError::StoredLengthMismatch)
                } else if p2 / 8 + len > data.len() {
                    Err(PngError::UnexpectedEnd)
                } else {
                    Ok((8 * (p2 / 8 + len), out + data.subrange(p2 / 8, p2 / 8 + len)))
                }
            },
        },
    }
}

pub proof fn lemma_codes_pos(
    data: Seq<u8>,
    pos: int,
    out: Seq<u8>,
    lc: Seq<usize>,
    ls: Seq<usize>,
    dc: Seq<usize>,
    ds: Seq<usize>,
)
    ensures
        spec_codes(data, pos, out, lc, ls, dc, ds) matches Ok((p, o)) ==> pos < p <= 8
            * data.len(),
    decreases 8 * data.len() - pos,
{
    lemma_decode_advances(lc, ls, data, pos);
    match spec_decode(lc, ls, data, pos) {
        None => {},
        Some((sym, p1)) => {
            if sym < 256 {
                lemma_codes_pos(data, p1, out.push(sym as u8), lc, ls, dc, ds);
            } else if sym == 256 {
            } else if sym - 257 > 28 {
            } else {
                let s = sym - 257;
                match spec_read_bits(data, p1, LEXT[s] as nat) {
                    None => {},
                    Some((e, p2)) => {
                        let len = (LENS[s] + e) as nat;
                        lemma_decode_advances(dc, ds, data, p2);
                        match spec_decode(dc, ds, data, p2) {
                            None => {},
                            Some((d, p3)) => {
                                if d < 30 {
                                    match spec_read_bits(data, p3, DEXT[d as int] as nat) {
                                        None => {},
                                        Some((e2, p4)) => {
                                            let dist = DISTS[d as int] + e2;
                                            if dist <= out.len() {
                                                lemma_codes_pos(
                                                    data,
                                                    p4,
                                                    copy_match(out, dist, len),
                                                    lc,
                                                    ls,
                                                    dc,
                                                    ds,
                                                );
                                            }
                                        },
                                    }
                                }
                            },
                        }
                    },
                }
            }
        },
    }
}

pub proof fn lemma_stored_pos(data: Seq<u8>, pos: int, out: Seq<u8>)
    requires
        0 <= pos,
    ensures
        spec_stored(data, pos, out) matches Ok((p, o)) ==> pos < p <= 8 * data.len(),
{
}


/// The code lengths of the fixed literal/length code.
pub open spec fn fixed_lit_lengths() -> Seq<usize> {
    Seq::new(
        288,
        |i: int|
            if i <= 143 {
                8usize
            } else if i <= 255 {
                9usize
            } else if i <= 279 {
                7usize
            } else {
                8usize
            },
    )
}

/// The code lengths of the fixed distance code.
pub open spec fn fixed_dist_lengths() -> Seq<usize> {
    Seq::new(30, |i: int| 5usize)
}

/// A block compressed with the fixed Huffman codes.
pub open spec fn spec_fixed(data: Seq<u8>, pos: int, out: Seq<u8>) -> Result<
    (int, Seq<u8>),
    PngError,
> {
    spec_codes(
        data,
        pos,
        out,
        code_counts(fixed_lit_lengths(), 288),
        code_symbols(fixed_lit_lengths(), 288),
        code_counts(fixed_dist_lengths(), 30),
        code_symbols(fixed_dist_lengths(), 30),
    )
}

/// Reading the 3-bit code lengths of the code length alphabet, the `i`-th going to entry
/// `ORDER[i]`, for `i` from `i` to `ncode`.
pub open spec fn spec_code_length_code(
    data: Seq<u8>,
    pos: int,
    lengths: Seq<usize>,
    i: nat,
    ncode: nat,
) -> Option<(int, Seq<usize>)>
    decreases ncode - i,
{
    if i >= ncode {
        Some((pos, lengths))
    } else {
        match spec_read_bits(data, pos, 3) {
            None => None,
            Some((v, p)) => spec_code_length_code(
                data,
                p,
                lengths.update(ORDER[i as int] as int, v as usize),
                i + 1,
                ncode,
            ),
        }
    }
}

/// `lengths` with the `rep` entries from `index` set to `len`.
pub open spec fn fill_lengths(lengths: Seq<usize>, index: int, rep: int, len: usize) -> Seq<usize> {
    Seq::new(lengths.len(), |k: int| if index <= k < index + rep { len } else { lengths[k] })
}

/// Decoding the literal/length and distance code lengths of a dynamic block, from entry
/// `index` up to `total`, with the code length code (`cc`, `cs`): symbols 0 to 15 are lengths,
/// 16 repeats the previous length 3 to 6 times, 17 gives 3 to 10 zeros and any other symbol
/// 11 to 138 zeros.
pub open spec fn spec_read_lengths(
    data: Seq<u8>,
    pos: int,
    lengths: Seq<usize>,
    index: nat,
    total: nat,
    cc: Seq<usize>,
    cs: Seq<usize>,
) -> Result<(int, Seq<usize>), PngError>
    decreases MAX_LENGTHS + 1 - index,
{
    if index >= total {
        Ok((pos, lengths))
    } else {
        match spec_decode(cc, cs, data, pos) {
            None => Err(PngError::UnexpectedEnd),
            Some((sym, p1)) => {
                if sym < 16 {
                    if index >= MAX_LENGTHS {
                        Err(PngError::TooManyCodeLengths)
                    } else {
                        spec_read_lengths(
                            data,
                            p1,
                            lengths.update(index as int, sym),
                            index + 1,
                            total,
                            cc,
                            cs,
                        )
                    }
                } else if sym == 16 && index == 0 {
                    Err(PngError::RepeatWithoutPrevious)
                } else {
                    let nbits: nat = if sym == 16 {
                        2
                    } else if sym == 17 {
                        3
                    } else {
                        7
                    };
                    let base: nat = if sym == 16 || sym == 17 {
                        3
                    } else {
                        11
                    };
                    let len: usize = if sym == 16 {
                        lengths[index - 1]
                    } else {
                        0
                    };
                    match spec_read_bits(data, p1, nbits) {
                        None => Err(PngError::UnexpectedEnd),
                        Some((v, p2)) => {
                            let rep = base + v;
                            if index + rep > MAX_LENGTHS {
                                Err(PngError::TooManyCodeLengths)
                            } else {
                                spec_read_lengths(
                                    data,
                                    p2,
                                    fill_lengths(lengths, index as int, rep as int, len),
                                    index + rep,
                                    total,
                                    cc,
                                    cs,
                                )
                            }
                        },
                    }
                }
            },
        }
    }
}

/// A block compressed with dynamic Huffman codes: the sizes of the three code length tables,
/// the code length code, the literal/length and distance code lengths, then the data.
pub open spec fn spec_dynamic(data: Seq<u8>, pos: int, out: Seq<u8>) -> Result<
    (int, Seq<u8>),
    PngError,
> {
    match spec_read_bits(data, pos, 5) {
        None => Err(PngError::UnexpectedEnd),
        Some((hlit, p1)) => match spec_read_bits(data, p1, 5) {
            None => Err(PngError::UnexpectedEnd),
            Some((hdist, p2)) => match spec_read_bits(data, p2, 4) {
                None => Err(PngError::UnexpectedEnd),
                Some((hclen, p3)) => {
                    let nlen = hlit + 257;
                    let ndist = hdist + 1;
                    let ncode = hclen + 4;
                    match spec_code_length_code(
                        data,
                        p3,
                        Seq::new(MAX_LENGTHS as nat, |i: int| 0usize),
                        0,
                        ncode,
                    ) {
                        None => Err(PngError::UnexpectedEnd),
                        Some((p4, l0)) => match spec_read_lengths(
                            data,
                            p4,
                            l0,
                            0,
                            nlen + ndist,
                            code_counts(l0, 19),
                            code_symbols(l0, 19),
                        ) {
                            Err(e) => Err(e),
                            Ok((p5, lens)) => {
                                if nonzero_lengths(lens, nlen) > 286 {
                                    Err(PngError::TooManyCodes)
                                } else if ndist > MAX_LENGTHS - nlen {
                                    Err(PngError::TooManyCodes)
                                } else if nonzero_lengths(lens.skip(nlen as int), ndist) > 30 {
                                    Err(PngError::TooManyCodes)
                                } else {
                                    spec_codes(
                                        data,
                                        p5,
                                        out,
                                        code_counts(lens, nlen),
                                        code_symbols(lens, nlen),
                                        code_counts(lens.skip(nlen as int), ndist),
                                        code_symbols(lens.skip(nlen as int), ndist),
                                    )
                                }
                            },
                        },
                    }
                },
            },
        },
    }
}

/// One block of type `btype` from bit `pos`.
#[verifier::opaque]
pub open spec fn spec_block(data: Seq<u8>, pos: int, out: Seq<u8>, btype: nat) -> Result<
    (int, Seq<u8>),
    PngError,
> {
    if btype == 0 {
        spec_stored(data, pos, out)
    } else if btype == 1 {
        spec_fixed(data, pos, out)
    } else if btype == 2 {
        spec_dynamic(data, pos, out)
    } else {
        Err(PngError::ReservedBlockType)
    }
}

/// Decoding the blocks of a deflate stream from bit `pos`, each a final-block bit, a 2-bit
/// block type and the block, until the final block. Gives the output and the block types.
pub open spec fn spec_blocks(data: Seq<u8>, pos: int, out: Seq<u8>, kinds: Seq<u8>) -> Result<
    (Seq<u8>, Seq<u8>),
    PngError,
>
    decreases 8 * data.len() - pos,
{
    match spec_read_bits(data, pos, 1) {
        None => Err(PngError::UnexpectedEnd),
        Some((bfinal, p1)) => match spec_read_bits(data, p1, 2) {
            None => Err(PngError::UnexpectedEnd),
            Some((btype, p2)) => match spec_block(data, p2, out, btype) {
                Err(e) => Err(e),
                Ok((p3, o)) => {
                    proof {
                        lemma_block_pos(data, p2, out, btype);
                    }
                    if bfinal == 1 {
                        Ok((o, kinds.push(btype as u8)))
                    } else {
                        spec_blocks(data, p3, o, kinds.push(btype as u8))
                    }
                },
            },
        },
    }
}

/// Inflating a whole deflate stream, appending to `out`: the output and the block types.
pub open spec fn spec_inflate(data: Seq<u8>, out: Seq<u8>) -> Result<(Seq<u8>, Seq<u8>), PngError> {
    spec_blocks(data, 0, out, seq![])
}

/// What a zlib header and trailer tell besides the inflated data.
pub struct ZlibInfo {
    /// The FDICT flag: a preset dictionary is named.
    pub preset_dictionary: bool,
    /// The FLEVEL field, 0 (fastest) to 3 (maximum compression).
    pub compression_level: u8,
    /// The Adler-32 checksum stored in the trailer.
    pub check: u32,
    /// The type of each deflate block, in stream order.
    pub block_types: Vec<u8>,
}

/// The FCHECK value that this decoder asks of a header with the given CMF and FLG bytes.
pub open spec fn expected_fcheck(cmf: u8, flg: u8) -> int {
    31 - ((cmf * 256 + (flg / 32) * 32) % 31)
}

/// Decoding a zlib stream (RFC 1950): header checks, the deflate data between the 2-byte header
/// and the 4-byte trailer, then the Adler-32 check of the decoded data (what the stream appends
/// to `out`). Gives the output and the block types.
pub open spec fn spec_zlib(data: Seq<u8>, out: Seq<u8>) -> Result<(Seq<u8>, Seq<u8>), PngError> {
    if data.len() < 1 {
        Err(PngError::ZlibTooShort)
    } else if data[0] % 16 != 8 {
        Err(PngError::ZlibCompressionMethod)
    } else if data[0] / 16 > 7 {
        Err(PngError::ZlibWindowSize)
    } else if data.len() < 2 {
        Err(PngError::ZlibTooShort)
    } else if expected_fcheck(data[0], data[1]) != data[1] % 32 {
        Err(PngError::ZlibHeaderCheck)
    } else if data.len() < 6 {
        Err(PngError::ZlibTooShort)
    } else {
        match spec_inflate(data.subrange(2, data.len() - 4), out) {
            Err(e) => Err(e),
            Ok((o, kinds)) => {
                if spec_adler32(o.subrange(out.len() as int, o.len() as int)) != spec_be_u32(
                    data,
                    data.len() - 4,
                ) {
                    Err(PngError::Adler32Mismatch)
                } else {
                    Ok((o, kinds))
                }
            },
        }
    }
}

pub proof fn lemma_code_length_code_pos(
    data: Seq<u8>,
    pos: int,
    lengths: Seq<usize>,
    i: nat,
    ncode: nat,
)
    requires
        0 <= pos <= 8 * data.len(),
    ensures
        spec_code_length_code(data, pos, lengths, i, ncode) matches Some((p, l)) ==> pos <= p
            <= 8 * data.len(),
    decreases ncode - i,
{
    if i < ncode {
        match spec_read_bits(data, pos, 3) {
            None => {},
            Some((v, p)) => {
                lemma_code_length_code_pos(
                    data,
                    p,
                    lengths.update(ORDER[i as int] as int, v as usize),
                    i + 1,
                    ncode,
                );
            },
        }
    }
}

pub proof fn lemma_read_lengths_pos(
    data: Seq<u8>,
    pos: int,
    lengths: Seq<usize>,
    index: nat,
    total: nat,
    cc: Seq<usize>,
    cs: Seq<usize>,
)
    requires
        0 <= pos <= 8 * data.len(),
    ensures
        spec_read_lengths(data, pos, lengths, index, total, cc, cs) matches Ok((p, l)) ==> pos
            <= p <= 8 * data.len(),
    decreases MAX_LENGTHS + 1 - index,
{
    if index < total {
        lemma_decode_advances(cc, cs, data, pos);
        match spec_decode(cc, cs, data, pos) {
            None => {},
            Some((sym, p1)) => {
                if sym < 16 {
                    if index < MAX_LENGTHS {
                        lemma_read_lengths_pos(
                            data,
                            p1,
                            lengths.update(index as int, sym),
                            index + 1,
                            total,
                            cc,
                            cs,
                        );
                    }
                } else if sym == 16 && index == 0 {
                } else {
                    let nbits: nat = if sym == 16 {
                        2
                    } else if sym == 17 {
                        3
                    } else {
                        7
                    };
                    let base: nat = if sym == 16 || sym == 17 {
                        3
                    } else {
                        11
                    };
                    let len: usize = if sym == 16 {
                        lengths[index - 1]
                    } else {
                        0
                    };
                    match spec_read_bits(data, p1, nbits) {
                        None => {},
                        Some((v, p2)) => {
                            let rep = base + v;
                            if index + rep <= MAX_LENGTHS {
                                lemma_read_lengths_pos(
                                    data,
                                    p2,
                                    fill_lengths(lengths, index as int, rep as int, len),
                                    index + rep,
                                    total,
                                    cc,
                                    cs,
                                );
                            }
                        },
                    }
                }
            },
        }
    }
}

pub proof fn lemma_block_pos(data: Seq<u8>, pos: int, out: Seq<u8>, btype: nat)
    requires
        0 <= pos,
    ensures
        spec_block(data, pos, out, btype) matches Ok((p, o)) ==> pos <= p <= 8 * data.len(),
{
    reveal(spec_block);
    if btype == 0 {
        lemma_stored_pos(data, pos, out);
    } else if btype == 1 {
        lemma_codes_pos(
            data,
            pos,
            out,
            code_counts(fixed_lit_lengths(), 288),
            code_symbols(fixed_lit_lengths(), 288),
            code_counts(fixed_dist_lengths(), 30),
            code_symbols(fixed_dist_lengths(), 30),
        );
    } else if btype == 2 {
        match spec_read_bits(data, pos, 5) {
            None => {},
            Some((hlit, p1)) => match spec_read_bits(data, p1, 5) {
                None => {},
                Some((hdist, p2)) => match spec_read_bits(data, p2, 4) {
                    None => {},
                    Some((hclen, p3)) => {
                        let nlen = hlit + 257;
                        let ndist = hdist + 1;
                        let ncode = hclen + 4;
                        let z = Seq::new(MAX_LENGTHS as nat, |i: int| 0usize);
                        lemma_code_length_code_pos(data, p3, z, 0, ncode);
                        match spec_code_length_code(data, p3, z, 0, ncode) {
                            None => {},
                            Some((p4, l0)) => {
                                lemma_read_lengths_pos(
                                    data,
                                    p4,
                                    l0,
                                    0,
                                    nlen + ndist,
                                    code_counts(l0, 19),
                                    code_symbols(l0, 19),
                                );
                                match spec_read_lengths(
                                    data,
                                    p4,
                                    l0,
                                    0,
                                    nlen + ndist,
                                    code_counts(l0, 19),
                                    code_symbols(l0, 19),
                                ) {
                                    Err(e) => {},
                                    Ok((p5, lens)) => {
                                        lemma_codes_pos(
                                            data,
                                            p5,
                                            out,
                                            code_counts(lens, nlen),
                                            code_symbols(lens, nlen),
                                            code_counts(lens.skip(nlen as int), ndist),
                                            code_symbols(lens.skip(nlen as int), ndist),
                                        );
                                    },
                                }
                            },
                        }
                    },
                },
            },
        }
    }
}

/// A deflate stream of one final stored block holding `d`: the header byte (final bit set,
/// block type 0), the length and its one's complement, little-endian, then the bytes.
pub open spec fn stored_stream(d: Seq<u8>) -> Seq<u8> {
    seq![
        1u8,
        (d.len() % 256) as u8,
        (d.len() / 256) as u8,
        ((65535 - d.len()) % 256) as u8,
        ((65535 - d.len()) / 256) as u8,
    ] + d
}

/// Inflating a stream of one final stored block gives back the stored bytes, appended to the
/// output, and reports one block of type 0.
#[verifier::rlimit(30)]
pub proof fn lemma_stored_roundtrip(d: Seq<u8>, out: Seq<u8>)
    requires
        d.len() <= 65535,
    ensures
        spec_inflate(stored_stream(d), out) == Ok::<(Seq<u8>, Seq<u8>), PngError>(
            (out + d, seq![0u8]),
        ),
{
    let s = stored_stream(d);
    let n: int = d.len() as int;
    vstd::arithmetic::power2::lemma2_to64();
    reveal_with_fuel(bits_value, 3);
    assert(s[0] == 1u8);
    assert(pow2(0) == 1 && pow2(1) == 2 && pow2(2) == 4);
    assert(bit_at(s, 0) == 1) by {
        assert(0int / 8 == 0 && 0int % 8 == 0);
        assert(bit_at(s, 0) == ((s[0] as nat) / pow2(0)) % 2);
        assert((1nat / 1nat) % 2 == 1);
    }
    assert(bit_at(s, 1) == 0 && bit_at(s, 2) == 0) by {
        assert(1int / 8 == 0 && 1int % 8 == 1);
        assert(2int / 8 == 0 && 2int % 8 == 2);
        assert(bit_at(s, 1) == ((s[0] as nat) / pow2(1)) % 2);
        assert(bit_at(s, 2) == ((s[0] as nat) / pow2(2)) % 2);
        assert((1nat / 2nat) % 2 == 0 && (1nat / 4nat) % 2 == 0);
    }
    assert(spec_read_bits(s, 0, 1) == Some((1nat, 1int)));
    assert(spec_read_bits(s, 1, 2) == Some((0nat, 3int)));
    reveal(spec_block);
    assert(align_up(3) == 8);
    lemma_bits16(s, 1);
    lemma_bits16(s, 3);
    assert(8 * 1 == 8int && 8 * 3 == 24int);
    assert(s[1] + 256 * s[2] == n);
    assert(s[3] + 256 * s[4] == 65535 - n);
    assert(spec_read_bits(s, 8, 16) == Some((n as nat, 24int)));
    assert(spec_read_bits(s, 24, 16) == Some(((65535 - n) as nat, 40int)));
    assert(40int / 8 == 5);
    assert(s.subrange(5, 5 + n) =~= d);
    assert(spec_stored(s, 3, out) == Ok::<(int, Seq<u8>), PngError>((8 * (5 + n), out + d)));
    assert(seq![].push(0u8) =~= seq![0u8]);
}

/// When a zlib stream decodes, the Adler-32 of the data it decodes (what follows the earlier
/// output) is the checksum in its trailer.
pub proof fn lemma_zlib_checksum(data: Seq<u8>, out: Seq<u8>)
    requires
        spec_zlib(data, out) is Ok,
    ensures
        data.len() >= 6,
        spec_adler32(
            spec_zlib(data, out).unwrap().0.subrange(
                out.len() as int,
                spec_zlib(data, out).unwrap().0.len() as int,
            ),
        ) == spec_be_u32(data, data.len() - 4),
{
}

/// When a zlib stream decodes, its two header bytes, read as a big-endian number, are a
/// multiple of 31, as RFC 1950 asks of the check bits.
pub proof fn lemma_zlib_header_multiple(data: Seq<u8>, out: Seq<u8>)
    requires
        spec_zlib(data, out) is Ok,
    ensures
        (data[0] * 256 + data[1]) % 31 == 0,
{
    let cmf = data[0];
    let flg = data[1];
    let x: int = cmf * 256 + (flg / 32) * 32;
    assert(flg == (flg / 32) * 32 + flg % 32);
    assert(flg % 32 == 31 - x % 31);
    assert(cmf * 256 + flg == x + 31 - x % 31);
    assert((x + 31 - x % 31) % 31 == 0) by (nonlinear_arith)
        requires
            x >= 0,
    ;
}

/// A prefix of a prefix is a prefix.
proof fn lemma_prefix_trans(a: Seq<u8>, b: Seq<u8>, c: Seq<u8>)
    requires
        a.is_prefix_of(b),
        b.is_prefix_of(c),
    ensures
        a.is_prefix_of(c),
{
    assert(c.subrange(0, a.len() as int) =~= b.subrange(0, a.len() as int));
}

/// Appending to a sequence keeps every prefix it had.
proof fn lemma_prefix_push(a: Seq<u8>, s: Seq<u8>, x: u8)
    requires
        a.is_prefix_of(s),
    ensures
        a.is_prefix_of(s.push(x)),
{
    assert(s.push(x).subrange(0, a.len() as int) =~= s.subrange(0, a.len() as int));
}

// ---------------------------------------------------------------------------------------------
// Executable code
// ---------------------------------------------------------------------------------------------

/// Decodes the compressed data of a block with the given literal/length and distance codes,
/// appending to `out`, up to and including the end-of-block symbol.
#[verifier::rlimit(30)]
pub fn try_codes(
    data: &mut BitReader,
    lencode: &mut Huffman,
    distcode: &mut Huffman,
    out: &mut Vec<u8>,
) -> (r: Result<(), PngError>)
    requires
        old(data).wf(),
        huffman_wf(old(lencode).counts(), old(lencode).symbols()),
        huffman_wf(old(distcode).counts(), old(distcode).symbols()),
    ensures
        final(data).wf(),
        final(data).bytes() == old(data).bytes(),
        final(lencode).counts() == old(lencode).counts(),
        final(lencode).symbols() == old(lencode).symbols(),
        final(distcode).counts() == old(distcode).counts(),
        final(distcode).symbols() == old(distcode).symbols(),
        old(out)@.is_prefix_of(final(out)@),
        match spec_codes(
            old(data).bytes(),
            old(data).position(),
            old(out)@,
            counts_view(old(lencode).counts()),
            symbols_view(old(lencode).counts(), old(lencode).symbols()),
            counts_view(old(distcode).counts()),
            symbols_view(old(distcode).counts(), old(distcode).symbols()),
        ) {
            Ok((p, o)) => r is Ok && final(data).position() == p && final(out)@ == o,
            Err(e) => r == Err::<(), PngError>(e),
        },
{
    let ghost bytes = data.bytes();
    let ghost lc = counts_view(lencode.counts());
    let ghost ls = symbols_view(lencode.counts(), lencode.symbols());
    let ghost dc = counts_view(distcode.counts());
    let ghost ds = symbols_view(distcode.counts(), distcode.symbols());
    let ghost goal = spec_codes(bytes, data.position(), out@, lc, ls, dc, ds);
    let ghost lcount = lencode.counts();
    let ghost lsym = lencode.symbols();
    let ghost dcount = distcode.counts();
    let ghost dsym = distcode.symbols();
    proof {
        lemma_first_index_mono(lcount, 0, 16);
        lemma_first_index_mono(dcount, 0, 16);
    }
    loop
        invariant
            data.wf(),
            data.bytes() == bytes,
            bytes == old(data).bytes(),
            lencode.counts() == lcount,
            lencode.symbols() == lsym,
            distcode.counts() == dcount,
            distcode.symbols() == dsym,
            lcount == old(lencode).counts(),
            lsym == old(lencode).symbols(),
            dcount == old(distcode).counts(),
            dsym == old(distcode).symbols(),
            huffman_wf(lcount, lsym),
            huffman_wf(dcount, dsym),
            lc == counts_view(lcount),
            ls == symbols_view(lcount, lsym),
            dc == counts_view(dcount),
            ds == symbols_view(dcount, dsym),
            goal == spec_codes(
                bytes,
                old(data).position(),
                old(out)@,
                lc,
                ls,
                dc,
                ds,
            ),
            spec_codes(bytes, data.position(), out@, lc, ls, dc, ds) == goal,
            old(out)@.is_prefix_of(out@),
        decreases 8 * bytes.len() - data.position(),
    {
        let ghost pos = data.position();
        let ghost cur = out@;
        proof {
            data.lemma_position_bounds();
            lemma_decode_agree(lcount, lsym, lc, ls, bytes, pos);
            lemma_decode_advances(lc, ls, bytes, pos);
        }
        let symbol = match try_decode(data, lencode) {
            Ok(s) => s,
            Err(e) => {
                return Err(e);
            },
        };
        if symbol < 256 {
            proof {
                lemma_prefix_push(old(out)@, out@, symbol as u8);
            }
            out.push(symbol as u8);
            continue ;
        }
        if symbol == 256 {
            return Ok(());
        }
        let s = symbol - 257;
        if s > 28 {
            return Err(PngError::InvalidLengthSymbol);
        }
        let extra = match data.read_bits(LEXT[s]) {
            Some(v) => v,
            None => {
                return Err(PngError::UnexpectedEnd);
            },
        };
        let ghost p2 = data.position();
        proof {
            crate::bits::lemma_bits_value_bound(bytes, spec_decode(lc, ls, bytes, pos).unwrap().1, LEXT[s as int] as nat);
            vstd::arithmetic::power2::lemma2_to64();
            data.lemma_position_bounds();
            lemma_decode_agree(dcount, dsym, dc, ds, bytes, p2);
            lemma_decode_advances(dc, ds, bytes, p2);
        }
        let mut len: u64 = LENS[s] + extra;
        let d = match try_decode(data, distcode) {
            Ok(d) => d,
            Err(e) => {
                return Err(e);
            },
        };
        if d >= 30 {
            return Err(PngError::InvalidDistanceSymbol);
        }
        let ghost p3 = data.position();
        let e2 = match data.read_bits(DEXT[d]) {
            Some(v) => v,
            None => {
                return Err(PngError::UnexpectedEnd);
            },
        };
        proof {
            crate::bits::lemma_bits_value_bound(bytes, p3, DEXT[d as int] as nat);
        }
        let dist: u64 = DISTS[d] + e2;
        if dist as usize > out.len() {
            return Err(PngError::DistanceTooFar);
        }
        let dist = dist as usize;
        let ghost target = copy_match(out@, dist as int, len as nat);
        while len > 0
            invariant
                1 <= dist <= out@.len(),
                copy_match(out@, dist as int, len as nat) == target,
                old(out)@.is_prefix_of(out@),
            decreases len,
        {
            let value = out[out.len() - dist];
            len = len - 1;
            proof {
                lemma_prefix_push(old(out)@, out@, value);
            }
            out.push(value);
        }
    }
}

/// Copies a stored block: skips to a byte boundary, reads the length and its one's complement,
/// and appends that many bytes to `out`.
pub fn try_stored(data: &mut BitReader, out: &mut Vec<u8>) -> (r: Result<(), PngError>)
    requires
        old(data).wf(),
    ensures
        final(data).wf(),
        final(data).bytes() == old(data).bytes(),
        old(out)@.is_prefix_of(final(out)@),
        match spec_stored(old(data).bytes(), old(data).position(), old(out)@) {
            Ok((p, o)) => r is Ok && final(data).position() == p && final(out)@ == o,
            Err(e) => r == Err::<(), PngError>(e),
        },
{
    let ghost bytes = data.bytes();
    data.align_byte();
    let ghost p0 = data.position();
    proof {
        data.lemma_position_bounds();
        lemma_bits_value_bound(bytes, p0, 16);
        lemma_bits_value_bound(bytes, p0 + 16, 16);
        vstd::arithmetic::power2::lemma2_to64();
    }
    let len = match data.read_bits(16) {
        Some(v) => v as u16,
        None => {
            return Err(PngError::UnexpectedEnd);
        },
    };
    let nlen = match data.read_bits(16) {
        Some(v) => v as u16,
        None => {
            return Err(PngError::UnexpectedEnd);
        },
    };
    assert(!len == nlen <==> len + nlen == 65535) by (bit_vector);
    if !len != nlen {
        return Err(PngError::StoredLengthMismatch);
    }
    proof {
        let p2 = data.position();
        let q = (old(data).position() + 7) / 8;
        assert(p0 == q * 8);
        assert(p2 == (q + 4) * 8);
        assert(align_up(p2) == p2) by {
            vstd::arithmetic::div_mod::lemma_fundamental_div_mod_converse(
                p2 + 7,
                8,
                q + 4,
                7,
            );
            vstd::arithmetic::div_mod::lemma_fundamental_div_mod_converse(
                p2,
                8,
                q + 4,
                0,
            );
        }
    }
    match data.take_bytes(len as usize) {
        Some(bytes_taken) => {
            out.extend_from_slice(bytes_taken);
            proof {
                assert(out@ =~= old(out)@ + bytes_taken@);
            }
            Ok(())
        },
        None => Err(PngError::UnexpectedEnd),
    }
}


/// Decodes a block compressed with the fixed Huffman codes.
pub fn try_fixed(data: &mut BitReader, out: &mut Vec<u8>) -> (r: Result<(), PngError>)
    requires
        old(data).wf(),
    ensures
        final(data).wf(),
        final(data).bytes() == old(data).bytes(),
        old(out)@.is_prefix_of(final(out)@),
        match spec_fixed(old(data).bytes(), old(data).position(), old(out)@) {
            Ok((p, o)) => r is Ok && final(data).position() == p && final(out)@ == o,
            Err(e) => r == Err::<(), PngError>(e),
        },
{
    let mut lencount = [0usize; 16];
    let mut lensym = [0usize; 288];
    let mut distcount = [0usize; 16];
    let mut distsym = [0usize; 30];
    let mut lencode = Huffman { count: &mut lencount, symbol: &mut lensym };
    let mut distcode = Huffman { count: &mut distcount, symbol: &mut distsym };
    let mut arr = [0usize; 288];
    let mut i: usize = 0;
    while i <= 143
        invariant
            i <= 144,
            forall|k: int| 0 <= k < i ==> arr@[k] == fixed_lit_lengths()[k],
        decreases 144 - i,
    {
        arr[i] = 8;
        i += 1;
    }
    while i <= 255
        invariant
            144 <= i <= 256,
            forall|k: int| 0 <= k < i ==> arr@[k] == fixed_lit_lengths()[k],
        decreases 256 - i,
    {
        arr[i] = 9;
        i += 1;
    }
    while i <= 279
        invariant
            256 <= i <= 280,
            forall|k: int| 0 <= k < i ==> arr@[k] == fixed_lit_lengths()[k],
        decreases 280 - i,
    {
        arr[i] = 7;
        i += 1;
    }
    while i <= 287
        invariant
            280 <= i <= 288,
            forall|k: int| 0 <= k < i ==> arr@[k] == fixed_lit_lengths()[k],
        decreases 288 - i,
    {
        arr[i] = 8;
        i += 1;
    }
    proof {
        assert(arr@ =~= fixed_lit_lengths());
        lemma_table_len_nonzero(arr@, 288);
    }
    construct(&mut lencode, &arr, 288);
    proof {
        lemma_code_agree(arr@, fixed_lit_lengths(), 288);
    }
    i = 0;
    while i < 30
        invariant
            i <= 30,
            arr@.len() == 288,
            forall|k: int| 0 <= k < i ==> arr@[k] == 5,
        decreases 30 - i,
    {
        arr[i] = 5;
        i += 1;
    }
    proof {
        lemma_table_len_nonzero(arr@, 30);
    }
    construct(&mut distcode, &arr, 30);
    proof {
        lemma_code_agree(arr@, fixed_dist_lengths(), 30);
        assert(counts_view(lencode.counts()) =~= code_counts(fixed_lit_lengths(), 288));
        assert(symbols_view(lencode.counts(), lencode.symbols()) =~= code_symbols(
            fixed_lit_lengths(),
            288,
        ));
        assert(counts_view(distcode.counts()) =~= code_counts(fixed_dist_lengths(), 30));
        assert(symbols_view(distcode.counts(), distcode.symbols()) =~= code_symbols(
            fixed_dist_lengths(),
            30,
        ));
    }
    try_codes(data, &mut lencode, &mut distcode, out)
}


/// How many of the first `n` code lengths are not zero.
fn count_nonzero(lengths: &[usize], n: usize) -> (r: usize)
    requires
        n <= lengths@.len(),
    ensures
        r == nonzero_lengths(lengths@, n as nat),
{
    let mut c: usize = 0;
    let mut i: usize = 0;
    while i < n
        invariant
            i <= n,
            n <= lengths@.len(),
            c == nonzero_lengths(lengths@, i as nat),
            c <= i,
        decreases n - i,
    {
        if lengths[i] != 0 {
            c += 1;
        }
        i += 1;
        proof {
            assert(((i as nat) - 1) as nat == (i - 1) as nat);
        }
    }
    c
}

/// Decodes the literal/length and distance code lengths of a dynamic block into
/// `lengths[..total]` with the code length code.
#[verifier::rlimit(30)]
fn read_lengths(
    data: &mut BitReader,
    lencode: &Huffman,
    lengths: &mut [usize; 316],
    total: usize,
) -> (r: Result<(), PngError>)
    requires
        old(data).wf(),
        huffman_wf(lencode.counts(), lencode.symbols()),
        total <= 320,
        forall|k: int| 0 <= k < 316 ==> old(lengths)@[k] <= 15,
    ensures
        final(data).wf(),
        final(data).bytes() == old(data).bytes(),
        forall|k: int| 0 <= k < 316 ==> final(lengths)@[k] <= 15,
        match spec_read_lengths(
            old(data).bytes(),
            old(data).position(),
            old(lengths)@,
            0,
            total as nat,
            counts_view(lencode.counts()),
            symbols_view(lencode.counts(), lencode.symbols()),
        ) {
            Ok((p, l)) => r is Ok && final(data).position() == p && final(lengths)@ == l,
            Err(e) => r == Err::<(), PngError>(e),
        },
{
    let ghost bytes = data.bytes();
    let ghost cc = counts_view(lencode.counts());
    let ghost cs = symbols_view(lencode.counts(), lencode.symbols());
    let ghost goal = spec_read_lengths(bytes, data.position(), lengths@, 0, total as nat, cc, cs);
    proof {
        lemma_first_index_mono(lencode.counts(), 0, 16);
    }
    let mut index: usize = 0;
    while index < total
        invariant
            data.wf(),
            data.bytes() == bytes,
            bytes == old(data).bytes(),
            index <= 316,
            total <= 320,
            lengths@.len() == 316,
            forall|k: int| 0 <= k < 316 ==> lengths@[k] <= 15,
            huffman_wf(lencode.counts(), lencode.symbols()),
            cc == counts_view(lencode.counts()),
            cs == symbols_view(lencode.counts(), lencode.symbols()),
            goal == spec_read_lengths(
                old(data).bytes(),
                old(data).position(),
                old(lengths)@,
                0,
                total as nat,
                cc,
                cs,
            ),
            spec_read_lengths(bytes, data.position(), lengths@, index as nat, total as nat, cc, cs)
                == goal,
        decreases MAX_LENGTHS + 1 - index,
    {
        proof {
            data.lemma_position_bounds();
            lemma_decode_agree(lencode.counts(), lencode.symbols(), cc, cs, bytes, data.position());
        }
        let symbol = match try_decode(data, lencode) {
            Ok(s) => s,
            Err(e) => {
                return Err(e);
            },
        };
        if symbol < 16 {
            if index >= 316 {
                return Err(PngError::TooManyCodeLengths);
            }
            lengths[index] = symbol;
            index += 1;
        } else {
            let mut len: usize = 0;
            let rep: usize;
            proof {
                data.lemma_position_bounds();
                lemma_bits_value_bound(bytes, data.position(), 2);
                lemma_bits_value_bound(bytes, data.position(), 3);
                lemma_bits_value_bound(bytes, data.position(), 7);
                vstd::arithmetic::power2::lemma2_to64();
            }
            if symbol == 16 {
                if index == 0 {
                    return Err(PngError::RepeatWithoutPrevious);
                }
                len = lengths[index - 1];
                rep = 3 + match data.read_bits(2) {
                    Some(v) => v as usize,
                    None => {
                        return Err(PngError::UnexpectedEnd);
                    },
                };
            } else if symbol == 17 {
                rep = 3 + match data.read_bits(3) {
                    Some(v) => v as usize,
                    None => {
                        return Err(PngError::UnexpectedEnd);
                    },
                };
            } else {
                rep = 11 + match data.read_bits(7) {
                    Some(v) => v as usize,
                    None => {
                        return Err(PngError::UnexpectedEnd);
                    },
                };
            }
            if index + rep > 316 {
                return Err(PngError::TooManyCodeLengths);
            }
            let ghost start = index;
            let ghost before = lengths@;
            let mut k = rep;
            while k > 0
                invariant
                    start + rep <= 316,
                    index + k == start + rep,
                    start <= index,
                    len <= 15,
                    lengths@ == fill_lengths(before, start as int, (index - start) as int, len),
                    before.len() == 316,
                    forall|j: int| 0 <= j < 316 ==> before[j] <= 15,
                decreases k,
            {
                lengths[index] = len;
                index += 1;
                k -= 1;
                proof {
                    assert(lengths@ =~= fill_lengths(before, start as int, (index - start) as int, len));
                }
            }
        }
    }
    Ok(())
}

/// Decodes a block compressed with dynamic Huffman codes: reads the code length code, the
/// literal/length and distance code lengths, builds both codes and decodes the data.
#[verifier::loop_isolation(false)]
#[verifier::rlimit(30)]
pub fn try_dynamic(data: &mut BitReader, out: &mut Vec<u8>) -> (r: Result<(), PngError>)
    requires
        old(data).wf(),
    ensures
        final(data).wf(),
        final(data).bytes() == old(data).bytes(),
        old(out)@.is_prefix_of(final(out)@),
        match spec_dynamic(old(data).bytes(), old(data).position(), old(out)@) {
            Ok((p, o)) => r is Ok && final(data).position() == p && final(out)@ == o,
            Err(e) => r == Err::<(), PngError>(e),
        },
{
    let ghost bytes = data.bytes();
    let ghost pos0 = data.position();
    let mut lengths = [0usize; 316];
    let mut lencount = [0usize; 16];
    let mut lensym = [0usize; 286];
    let mut distcount = [0usize; 16];
    let mut distsym = [0usize; 30];
    let mut lencode = Huffman { count: &mut lencount, symbol: &mut lensym };
    let mut distcode = Huffman { count: &mut distcount, symbol: &mut distsym };
    proof {
        data.lemma_position_bounds();
        lemma_bits_value_bound(bytes, pos0, 5);
        lemma_bits_value_bound(bytes, pos0 + 5, 5);
        lemma_bits_value_bound(bytes, pos0 + 10, 4);
        vstd::arithmetic::power2::lemma2_to64();
    }
    let hlit = match data.read_bits(5) {
        Some(v) => v,
        None => {
            return Err(PngError::UnexpectedEnd);
        },
    };
    let nlen = hlit + 257;
    let hdist = match data.read_bits(5) {
        Some(v) => v,
        None => {
            return Err(PngError::UnexpectedEnd);
        },
    };
    let ndist = hdist + 1;
    let hclen = match data.read_bits(4) {
        Some(v) => v,
        None => {
            return Err(PngError::UnexpectedEnd);
        },
    };
    let ncode = hclen + 4;
    let ghost p3 = data.position();
    let ghost zeros = Seq::new(MAX_LENGTHS as nat, |i: int| 0usize);
    let ghost cl_goal = spec_code_length_code(bytes, p3, zeros, 0, ncode as nat);
    proof {
        assert(lengths@ =~= zeros);
    }
    let mut i: usize = 0;
    while i < ncode as usize
        invariant
            data.wf(),
            data.bytes() == bytes,
            ncode <= 19,
            i <= ncode,
            lengths@.len() == 316,
            forall|k: int| 0 <= k < 316 ==> lengths@[k] <= 7,
            spec_code_length_code(bytes, data.position(), lengths@, i as nat, ncode as nat)
                == cl_goal,
        decreases ncode - i,
    {
        proof {
            data.lemma_position_bounds();
            lemma_bits_value_bound(bytes, data.position(), 3);
            vstd::arithmetic::power2::lemma2_to64();
        }
        let v = match data.read_bits(3) {
            Some(v) => v,
            None => {
                return Err(PngError::UnexpectedEnd);
            },
        };
        lengths[ORDER[i]] = v as usize;
        i += 1;
    }
    let ghost l0 = lengths@;
    let ghost p4 = data.position();
    proof {
        assert(lengths_ok(l0, 19));
        lemma_table_len_nonzero(l0, 19);
    }
    construct(&mut lencode, &lengths, 19);
    let ghost cc = code_counts(l0, 19);
    let ghost cs = code_symbols(l0, 19);
    let total = (nlen + ndist) as usize;
    proof {
        assert(counts_view(lencode.counts()) =~= cc);
        assert(symbols_view(lencode.counts(), lencode.symbols()) =~= cs);
    }
    match read_lengths(data, &lencode, &mut lengths, total) {
        Ok(()) => {},
        Err(e) => {
            return Err(e);
        },
    }
    let ghost lens = lengths@;
    let ghost p5 = data.position();
    let nlen = nlen as usize;
    let ndist = ndist as usize;
    proof {
        assert(lengths_ok(lens, nlen as nat));
        lemma_table_len_nonzero(lens, nlen as nat);
    }
    if count_nonzero(&lengths, nlen) > 286 {
        return Err(PngError::TooManyCodes);
    }
    construct(&mut lencode, &lengths, nlen);
    if ndist > 316 - nlen {
        return Err(PngError::TooManyCodes);
    }
    let dl = vstd::slice::slice_subrange(lengths.as_slice(), nlen, 316);
    proof {
        assert(dl@ =~= lens.skip(nlen as int));
        assert(lengths_ok(dl@, ndist as nat));
        lemma_table_len_nonzero(dl@, ndist as nat);
    }
    if count_nonzero(dl, ndist) > 30 {
        return Err(PngError::TooManyCodes);
    }
    construct(&mut distcode, dl, ndist);
    proof {
        assert(counts_view(lencode.counts()) =~= code_counts(lens, nlen as nat));
        assert(symbols_view(lencode.counts(), lencode.symbols()) =~= code_symbols(
            lens,
            nlen as nat,
        ));
        assert(counts_view(distcode.counts()) =~= code_counts(lens.skip(nlen as int), ndist as nat));
        assert(symbols_view(distcode.counts(), distcode.symbols()) =~= code_symbols(
            lens.skip(nlen as int),
            ndist as nat,
        ));
    }
    try_codes(data, &mut lencode, &mut distcode, out)
}


/// Decodes one block of type `btype`.
fn block(bit: &mut BitReader, out: &mut Vec<u8>, btype: u64) -> (r: Result<(), PngError>)
    requires
        old(bit).wf(),
    ensures
        final(bit).wf(),
        final(bit).bytes() == old(bit).bytes(),
        old(out)@.is_prefix_of(final(out)@),
        match spec_block(old(bit).bytes(), old(bit).position(), old(out)@, btype as nat) {
            Ok((p, o)) => r is Ok && final(bit).position() == p && final(out)@ == o,
            Err(e) => r == Err::<(), PngError>(e),
        },
{
    reveal(spec_block);
    if btype == 0 {
        try_stored(bit, out)
    } else if btype == 1 {
        try_fixed(bit, out)
    } else if btype == 2 {
        try_dynamic(bit, out)
    } else {
        Err(PngError::ReservedBlockType)
    }
}

/// Inflates a whole deflate stream, appending the output to `out`. Gives the types of the
/// blocks in stream order.
pub fn try_inflate(data: &[u8], out: &mut Vec<u8>) -> (r: Result<Vec<u8>, PngError>)
    ensures
        old(out)@.is_prefix_of(final(out)@),
        match spec_inflate(data@, old(out)@) {
            Ok((o, kinds)) => (r matches Ok(k) && k@ == kinds) && final(out)@ == o,
            Err(e) => r matches Err(e2) && e2 == e,
        },
{
    let mut bit = BitReader::new(data);
    let mut kinds: Vec<u8> = Vec::new();
    let ghost goal = spec_inflate(data@, out@);
    proof {
        assert(kinds@ =~= seq![]);
    }
    loop
        invariant
            bit.wf(),
            bit.bytes() == data@,
            goal == spec_inflate(data@, old(out)@),
            spec_blocks(data@, bit.position(), out@, kinds@) == goal,
            old(out)@.is_prefix_of(out@),
        decreases 8 * data@.len() - bit.position(),
    {
        let ghost pos = bit.position();
        proof {
            bit.lemma_position_bounds();
            lemma_bits_value_bound(data@, pos, 1);
            lemma_bits_value_bound(data@, pos + 1, 2);
            vstd::arithmetic::power2::lemma2_to64();
        }
        let bfinal = match bit.read_bits(1) {
            Some(v) => v == 1,
            None => {
                return Err(PngError::UnexpectedEnd);
            },
        };
        let btype = match bit.read_bits(2) {
            Some(v) => v,
            None => {
                return Err(PngError::UnexpectedEnd);
            },
        };
        let ghost p2 = bit.position();
        let ghost before = out@;
        proof {
            lemma_block_pos(data@, p2, out@, btype as nat);
        }
        let res = block(&mut bit, out, btype);
        proof {
            lemma_prefix_trans(old(out)@, before, out@);
        }
        match res {
            Ok(()) => {},
            Err(e) => {
                return Err(e);
            },
        }
        kinds.push(btype as u8);
        if bfinal {
            return Ok(kinds);
        }
    }
}


/// Decodes a zlib stream, appending the inflated data to `out`, and checks the Adler-32 of the
/// inflated data against the trailer.
pub fn try_zlib(data: &[u8], out: &mut Vec<u8>) -> (r: Result<ZlibInfo, PngError>)
    ensures
        old(out)@.is_prefix_of(final(out)@),
        match spec_zlib(data@, old(out)@) {
            Ok((o, kinds)) => {
                &&& r matches Ok(info)
                &&& info.block_types@ == kinds
                &&& info.preset_dictionary == ((data@[1] / 32) % 2 == 1)
                &&& info.compression_level == data@[1] / 64
                &&& info.check == spec_be_u32(data@, data@.len() - 4)
                &&& final(out)@ == o
            },
            Err(e) => r matches Err(e2) && e2 == e,
        },
{
    if data.len() < 1 {
        return Err(PngError::ZlibTooShort);
    }
    let cmf = data[0];
    let compression_method = cmf & 0x0f;
    let compression_info = cmf >> 4;
    assert(cmf & 0x0f == cmf % 16 && cmf >> 4 == cmf / 16) by (bit_vector);
    if compression_method != 8 {
        return Err(PngError::ZlibCompressionMethod);
    }
    if compression_info > 7 {
        return Err(PngError::ZlibWindowSize);
    }
    if data.len() < 2 {
        return Err(PngError::ZlibTooShort);
    }
    let flg = data[1];
    let check = flg & 0b0001_1111;
    let preset_dictionary = flg & 0b0010_0000 != 0;
    let compression_level = flg >> 6;
    assert(flg & 0x1f == flg % 32 && (flg & 0x20 != 0) == ((flg / 32) % 2 == 1) && flg >> 6
        == flg / 64 && (0xe0u16 & (flg as u16)) == (flg / 32) * 32) by (bit_vector);
    let check_check = 31 - ((cmf as u16 * 256 + (0b1110_0000 & flg as u16)) % 31);
    if check_check as u8 != check {
        return Err(PngError::ZlibHeaderCheck);
    }
    let len = data.len();
    if len < 6 {
        return Err(PngError::ZlibTooShort);
    }
    let trailer = be_u32(data, len - 4);
    let body = vstd::slice::slice_subrange(data, 2, len - 4);
    let start = out.len();
    let block_types = match try_inflate(body, out) {
        Ok(k) => k,
        Err(e) => {
            return Err(e);
        },
    };
    let decoded = vstd::slice::slice_subrange(out.as_slice(), start, out.len());
    if adler32(decoded) != trailer {
        return Err(PngError::Adler32Mismatch);
    }
    Ok(ZlibInfo { preset_dictionary, compression_level, check: trailer, block_types })
}


/// Decodes the compressed data of a block whose codes, length symbols and distances are all
/// valid, appending to `out`. `try_codes` is the form that reports an invalid stream.
pub fn codes(
    data: &mut BitReader,
    lencode: &mut Huffman,
    distcode: &mut Huffman,
    out: &mut Vec<u8>,
)
    requires
        old(data).wf(),
        huffman_wf(old(lencode).counts(), old(lencode).symbols()),
        huffman_wf(old(distcode).counts(), old(distcode).symbols()),
        spec_codes(
            old(data).bytes(),
            old(data).position(),
            old(out)@,
            counts_view(old(lencode).counts()),
            symbols_view(old(lencode).counts(), old(lencode).symbols()),
            counts_view(old(distcode).counts()),
            symbols_view(old(distcode).counts(), old(distcode).symbols()),
        ) is Ok,
    ensures
        final(data).wf(),
        final(data).bytes() == old(data).bytes(),
        final(lencode).counts() == old(lencode).counts(),
        final(lencode).symbols() == old(lencode).symbols(),
        final(distcode).counts() == old(distcode).counts(),
        final(distcode).symbols() == old(distcode).symbols(),
        old(out)@.is_prefix_of(final(out)@),
        spec_codes(
            old(data).bytes(),
            old(data).position(),
            old(out)@,
            counts_view(old(lencode).counts()),
            symbols_view(old(lencode).counts(), old(lencode).symbols()),
            counts_view(old(distcode).counts()),
            symbols_view(old(distcode).counts(), old(distcode).symbols()),
        ) == Ok::<(int, Seq<u8>), PngError>((final(data).position(), final(out)@)),
{
    try_codes(data, lencode, distcode, out).unwrap();
}

/// Copies a stored block whose length fields agree and whose bytes are all present.
/// `try_stored` is the form that reports a broken block.
pub fn stored(data: &mut BitReader, out: &mut Vec<u8>)
    requires
        old(data).wf(),
        spec_stored(old(data).bytes(), old(data).position(), old(out)@) is Ok,
    ensures
        final(data).wf(),
        final(data).bytes() == old(data).bytes(),
        old(out)@.is_prefix_of(final(out)@),
        spec_stored(old(data).bytes(), old(data).position(), old(out)@)
            == Ok::<(int, Seq<u8>), PngError>((final(data).position(), final(out)@)),
{
    try_stored(data, out).unwrap();
}

/// Decodes a valid block compressed with the fixed Huffman codes. `try_fixed` is the form
/// that reports an invalid block.
pub fn fixed(data: &mut BitReader, out: &mut Vec<u8>)
    requires
        old(data).wf(),
        spec_fixed(old(data).bytes(), old(data).position(), old(out)@) is Ok,
    ensures
        final(data).wf(),
        final(data).bytes() == old(data).bytes(),
        old(out)@.is_prefix_of(final(out)@),
        spec_fixed(old(data).bytes(), old(data).position(), old(out)@)
            == Ok::<(int, Seq<u8>), PngError>((final(data).position(), final(out)@)),
{
    try_fixed(data, out).unwrap();
}

/// Decodes a valid block compressed with dynamic Huffman codes. `try_dynamic` is the form
/// that reports an invalid block.
pub fn dynamic(data: &mut BitReader, out: &mut Vec<u8>)
    requires
        old(data).wf(),
        spec_dynamic(old(data).bytes(), old(data).position(), old(out)@) is Ok,
    ensures
        final(data).wf(),
        final(data).bytes() == old(data).bytes(),
        old(out)@.is_prefix_of(final(out)@),
        spec_dynamic(old(data).bytes(), old(data).position(), old(out)@)
            == Ok::<(int, Seq<u8>), PngError>((final(data).position(), final(out)@)),
{
    try_dynamic(data, out).unwrap();
}

/// Inflates a valid deflate stream, appending the output to `out`, and gives the types of the
/// blocks in stream order. `try_inflate` is the form that reports an invalid stream.
pub fn inflate(data: &[u8], out: &mut Vec<u8>) -> (kinds: Vec<u8>)
    requires
        spec_inflate(data@, old(out)@) is Ok,
    ensures
        old(out)@.is_prefix_of(final(out)@),
        spec_inflate(data@, old(out)@) == Ok::<(Seq<u8>, Seq<u8>), PngError>(
            (final(out)@, kinds@),
        ),
{
    try_inflate(data, out).unwrap()
}

/// Decodes a valid zlib stream, appending the inflated data to `out`. `try_zlib` is the form
/// that reports a bad header, a broken deflate stream or a checksum mismatch.
pub fn zlib(data: &[u8], out: &mut Vec<u8>) -> (info: ZlibInfo)
    requires
        spec_zlib(data@, old(out)@) is Ok,
    ensures
        old(out)@.is_prefix_of(final(out)@),
        spec_zlib(data@, old(out)@) == Ok::<(Seq<u8>, Seq<u8>), PngError>(
            (final(out)@, info.block_types@),
        ),
        info.preset_dictionary == ((data@[1] / 32) % 2 == 1),
        info.compression_level == data@[1] / 64,
        info.check == spec_be_u32(data@, data@.len() - 4),
{
    try_zlib(data, out).unwrap()
}

} // verus!
