use vstd::prelude::*;
use crate::chunk::{
    Chunk, ChunkView, chunk_views, try_check_chunk_count, try_check_chunk_ordering, same_type,
    spec_check_chunk_count, spec_check_chunk_ordering, PLTE, IDAT, IHDR, first_of,
    lemma_first_of_bounds,
};
use crate::endian::spec_be_u32;
use crate::error::PngError;
use crate::header::{
    IHDRChunkData, ImageType, CompressionMethod, FilterMethod, InterlaceMethod, FilterType,
    valid_color_type, spec_image_type, spec_channels, spec_filter_type, spec_unfilter,
    lemma_unfilter_prefix_len,
};
use crate::inflate::{ZlibInfo, try_zlib, spec_zlib};

verus! {

/// The data of the chunks of type `t`, concatenated in stream order.
pub open spec fn concat_data(cs: Seq<ChunkView>, t: Seq<u8>) -> Seq<u8>
    decreases cs.len(),
{
    if cs.len() == 0 {
        seq![]
    } else {
        concat_data(cs.drop_last(), t) + if cs.last().chunk_type == t {
            cs.last().data
        } else {
            seq![]
        }
    }
}

/// The data of the last chunk of type `t`.
pub open spec fn last_data(cs: Seq<ChunkView>, t: Seq<u8>) -> Option<Seq<u8>>
    decreases cs.len(),
{
    if cs.len() == 0 {
        None
    } else if cs.last().chunk_type == t {
        Some(cs.last().data)
    } else {
        last_data(cs.drop_last(), t)
    }
}

/// Undoing the filter of each row `i..height` of `data`: row `k` is `scan` bytes from
/// `scan * k`, a filter type byte followed by the filtered bytes; the previous row of the first
/// is `prev`.
pub open spec fn spec_unfilter_rows(
    data: Seq<u8>,
    i: nat,
    height: nat,
    scan: nat,
    bpp: int,
    prev: Seq<u8>,
) -> Result<Seq<u8>, PngError>
    decreases height - i,
{
    if i >= height {
        Ok(data)
    } else {
        let start: int = (scan * i) as int;
        let ft = data[start];
        if ft > 4 {
            Err(PngError::InvalidFilterType)
        } else {
            let row = spec_unfilter(
                spec_filter_type(ft),
                data.subrange(start + 1, start + scan as int),
                prev,
                bpp,
            );
            spec_unfilter_rows(
                data.subrange(0, start + 1) + row + data.subrange(start + scan as int, data.len() as int),
                i + 1,
                height,
                scan,
                bpp,
                row,
            )
        }
    }
}

/// The filter type byte of row `k` when rows are `scan` bytes long.
pub open spec fn filter_byte(s: Seq<u8>, scan: nat, k: int) -> u8 {
    s[scan * k]
}

/// Law: undoing the row filters keeps the length of the data, the bytes before row `i` and
/// each row's filter type byte, and succeeds only when every filter type byte is one of the five
/// filter types.
pub proof fn lemma_unfilter_rows_shape(
    data: Seq<u8>,
    i: nat,
    height: nat,
    scan: nat,
    bpp: int,
    prev: Seq<u8>,
)
    requires
        scan >= 1,
        scan * height <= data.len(),
        i <= height,
    ensures
        spec_unfilter_rows(data, i, height, scan, bpp, prev) matches Ok(rows) ==> {
            &&& rows.len() == data.len()
            &&& forall|j: int| 0 <= j < scan * i ==> rows[j] == data[j]
            &&& forall|k: int|
                i <= k < height ==> #[trigger] filter_byte(rows, scan, k) == filter_byte(
                    data,
                    scan,
                    k,
                ) && filter_byte(data, scan, k) <= 4
        },
    decreases height - i,
{
    if i < height {
        let start: int = (scan * i) as int;
        assert(scan * i + scan == scan * (i + 1)) by (nonlinear_arith);
        assert(scan * (i + 1) <= scan * height) by (nonlinear_arith)
            requires
                i + 1 <= height,
        ;
        let ft = data[start];
        if ft <= 4 {
            let line = data.subrange(start + 1, start + scan as int);
            let row = spec_unfilter(spec_filter_type(ft), line, prev, bpp);
            lemma_unfilter_prefix_len(spec_filter_type(ft), line, prev, bpp, line.len());
            let next = data.subrange(0, start + 1) + row + data.subrange(
                start + scan as int,
                data.len() as int,
            );
            assert(next.len() == data.len());
            lemma_unfilter_rows_shape(next, i + 1, height, scan, bpp, row);
            match spec_unfilter_rows(next, i + 1, height, scan, bpp, row) {
                Ok(rows) => {
                    assert forall|j: int| 0 <= j < scan * i implies rows[j] == data[j] by {
                        assert(rows[j] == next[j]);
                    }
                    assert forall|k: int| i <= k < height implies #[trigger] filter_byte(
                        rows,
                        scan,
                        k,
                    ) == filter_byte(data, scan, k) && filter_byte(data, scan, k) <= 4 by {
                        if k == i {
                            assert(rows[start] == next[start]);
                        } else {
                            assert(scan * k >= scan * (i + 1)) by (nonlinear_arith)
                                requires
                                    k >= i + 1,
                            ;
                            assert(scan * k < scan * height) by (nonlinear_arith)
                                requires
                                    k < height,
                                    scan >= 1,
                            ;
                            assert(next[scan * k] == data[scan * k]);
                            assert(filter_byte(rows, scan, k) == filter_byte(next, scan, k));
                            assert(filter_byte(next, scan, k) <= 4);
                        }
                    }
                },
                Err(_) => {},
            }
        }
    }
}

/// The bytes per complete pixel, given the IHDR data: channels times bit depth over 8.
pub open spec fn spec_bpp(h: Seq<u8>) -> int {
    spec_channels(spec_image_type(h[9])) * h[8] / 8
}

/// The number of samples in a pixel of each colour type: grey 1, RGB 3, palette index 1,
/// grey and alpha 2, RGB and alpha 4.
pub open spec fn samples_per_pixel(color_type: u8) -> int {
    if color_type == 2 {
        3
    } else if color_type == 4 {
        2
    } else if color_type == 6 {
        4
    } else {
        1
    }
}

/// Law: the bytes per pixel used to undo the row filters is the number of whole bytes in the
/// bits of one pixel (samples per pixel times bit depth); for 8 and 16 bits per sample, one
/// and two bytes per sample.
pub proof fn lemma_bpp_pixel_bytes(h: Seq<u8>)
    requires
        h.len() >= 13,
        valid_color_type(h[9]),
    ensures
        spec_bpp(h) * 8 <= samples_per_pixel(h[9]) * h[8] < spec_bpp(h) * 8 + 8,
        h[8] == 8 ==> spec_bpp(h) == samples_per_pixel(h[9]),
        h[8] == 16 ==> spec_bpp(h) == 2 * samples_per_pixel(h[9]),
{
    let n = samples_per_pixel(h[9]);
    assert(spec_channels(spec_image_type(h[9])) == n);
    let d = h[8] as int;
    assert(0 <= n * d) by (nonlinear_arith)
        requires
            1 <= n,
            0 <= d,
    ;
    vstd::arithmetic::div_mod::lemma_fundamental_div_mod(n * d, 8);
    vstd::arithmetic::div_mod::lemma_mod_bound(n * d, 8);
    if d == 8 {
        assert(n * d == 8 * n) by (nonlinear_arith)
            requires
                d == 8,
        ;
        vstd::arithmetic::div_mod::lemma_div_multiples_vanish(n, 8);
    }
    if d == 16 {
        assert(n * d == 8 * (2 * n)) by (nonlinear_arith)
            requires
                d == 16,
        ;
        vstd::arithmetic::div_mod::lemma_div_multiples_vanish(2 * n, 8);
    }
}

/// Decoding the image of a chunk sequence: the chunk count and ordering checks, the IHDR
/// fields, the PLTE length, the zlib stream of the IDAT data, and the unfiltering of the rows.
/// Gives the unfiltered rows (each still led by its filter type byte) and the block types.
pub open spec fn spec_parse_chunk(cs: Seq<ChunkView>) -> Result<(Seq<u8>, Seq<u8>), PngError> {
    if spec_check_chunk_count(cs) is Err {
        Err(spec_check_chunk_count(cs)->Err_0)
    } else if spec_check_chunk_ordering(cs) is Err {
        Err(spec_check_chunk_ordering(cs)->Err_0)
    } else {
        let h = cs[0].data;
        if h.len() < 13 {
            Err(PngError::IhdrTooShort)
        } else if !valid_color_type(h[9]) {
            Err(PngError::InvalidColorType)
        } else if h[10] != 0 {
            Err(PngError::InvalidCompressionMethod)
        } else if h[11] != 0 {
            Err(PngError::InvalidFilterMethod)
        } else if h[12] > 1 {
            Err(PngError::InvalidInterlaceMethod)
        } else if last_data(cs, PLTE@) matches Some(p) && p.len() % 3 != 0 {
            Err(PngError::PaletteLength)
        } else {
            match spec_zlib(concat_data(cs, IDAT@), seq![]) {
                Err(e) => Err(e),
                Ok((out, kinds)) => {
                    let height = spec_be_u32(h, 4);
                    if height == 0 {
                        Err(PngError::ZeroHeight)
                    } else if out.len() as int / height == 0 {
                        Err(PngError::EmptyScanline)
                    } else {
                        let scan = out.len() as int / height;
                        match spec_unfilter_rows(
                            out,
                            0,
                            height as nat,
                            scan as nat,
                            spec_bpp(h),
                            Seq::new((scan - 1) as nat, |k: int| 0u8),
                        ) {
                            Err(e) => Err(e),
                            Ok(rows) => Ok((rows, kinds)),
                        }
                    }
                },
            }
        }
    }
}

/// What decoding a PNG chunk sequence gives.
pub struct ImageInfo {
    /// The IHDR fields.
    pub header: IHDRChunkData,
    pub image_type: ImageType,
    pub compression: CompressionMethod,
    pub filter: FilterMethod,
    pub interlace: InterlaceMethod,
    /// What the zlib stream of the IDAT data says besides the image data.
    pub zlib: ZlibInfo,
    /// The inflated image data with each row's filter undone; each row keeps its leading
    /// filter type byte.
    pub scanlines: Vec<u8>,
}

/// Concatenates the data of the IDAT chunks.
fn idat_data(chunks: &Vec<Chunk>) -> (r: Vec<u8>)
    ensures
        r@ == concat_data(chunk_views(chunks@), IDAT@),
{
    let mut out: Vec<u8> = Vec::new();
    let mut i: usize = 0;
    while i < chunks.len()
        invariant
            i <= chunks@.len(),
            out@ == concat_data(chunk_views(chunks@).take(i as int), IDAT@),
        decreases chunks@.len() - i,
    {
        proof {
            assert(chunk_views(chunks@).take(i + 1).drop_last() =~= chunk_views(chunks@).take(
                i as int,
            ));
        }
        if same_type(&chunks[i].chunk_type, &IDAT) {
            out.extend_from_slice(chunks[i].data);
            proof {
                assert(out@ =~= concat_data(chunk_views(chunks@).take(i + 1), IDAT@));
            }
        } else {
            proof {
                assert(out@ =~= concat_data(chunk_views(chunks@).take(i + 1), IDAT@));
            }
        }
        i += 1;
    }
    proof {
        assert(chunk_views(chunks@).take(i as int) =~= chunk_views(chunks@));
    }
    out
}

/// The data of the last PLTE chunk.
fn palette(chunks: &Vec<Chunk>) -> (r: Option<usize>)
    ensures
        match last_data(chunk_views(chunks@), PLTE@) {
            Some(p) => r is Some && r.unwrap() as int == p.len(),
            None => r is None,
        },
{
    let mut plte: Option<usize> = None;
    let mut i: usize = 0;
    while i < chunks.len()
        invariant
            i <= chunks@.len(),
            match last_data(chunk_views(chunks@).take(i as int), PLTE@) {
                Some(p) => plte is Some && plte.unwrap() as int == p.len(),
                None => plte is None,
            },
        decreases chunks@.len() - i,
    {
        proof {
            assert(chunk_views(chunks@).take(i + 1).drop_last() =~= chunk_views(chunks@).take(
                i as int,
            ));
        }
        if same_type(&chunks[i].chunk_type, &PLTE) {
            plte = Some(chunks[i].data.len());
        }
        i += 1;
    }
    proof {
        assert(chunk_views(chunks@).take(i as int) =~= chunk_views(chunks@));
    }
    plte
}

proof fn lemma_row_bounds(len: nat, height: nat, i: nat)
    requires
        height > 0,
        i < height,
    ensures
        (len / height) * (i + 1) <= len,
        (len / height) * i + (len / height) == (len / height) * (i + 1),
{
    let scan = len / height;
    assert(scan * (i + 1) <= scan * height) by (nonlinear_arith)
        requires
            i + 1 <= height,
    ;
    assert(scan * height <= len) by (nonlinear_arith)
        requires
            scan == len / height,
            height > 0,
    ;
    assert(scan * i + scan == scan * (i + 1)) by (nonlinear_arith);
}

/// Undoes the filter of each row of `out`.
fn unfilter_rows(
    out: &mut Vec<u8>,
    height: usize,
    scan: usize,
    bpp: usize,
) -> (r: Result<(), PngError>)
    requires
        height > 0,
        scan >= 1,
        scan == old(out)@.len() as int / height as int,
    ensures
        match spec_unfilter_rows(
            old(out)@,
            0,
            height as nat,
            scan as nat,
            bpp as int,
            Seq::new((scan - 1) as nat, |k: int| 0u8),
        ) {
            Ok(rows) => r is Ok && final(out)@ == rows,
            Err(e) => r == Err::<(), PngError>(e),
        },
{
    let len = out.len();
    let mut prev_scanline: Vec<u8> = vec![0u8; scan - 1];
    proof {
        assert(prev_scanline@ =~= Seq::new((scan - 1) as nat, |k: int| 0u8));
    }
    let ghost goal = spec_unfilter_rows(
        out@,
        0,
        height as nat,
        scan as nat,
        bpp as int,
        prev_scanline@,
    );
    let mut i: usize = 0;
    while i < height
        invariant
            i <= height,
            height > 0,
            scan >= 1,
            len == out@.len(),
            scan == len as int / height as int,
            prev_scanline@.len() == scan - 1,
            spec_unfilter_rows(out@, i as nat, height as nat, scan as nat, bpp as int, prev_scanline@)
                == goal,
            goal == spec_unfilter_rows(
                old(out)@,
                0,
                height as nat,
                scan as nat,
                bpp as int,
                Seq::new((scan - 1) as nat, |k: int| 0u8),
            ),
        decreases height - i,
    {
        proof {
            lemma_row_bounds(len as nat, height as nat, i as nat);
        }
        let start = scan * i;
        let end = scan * (i + 1);
        let ft = out[start];
        if ft > 4 {
            return Err(PngError::InvalidFilterType);
        }
        let filter = FilterType::filter_type(ft);
        let mut row = vstd::slice::slice_to_vec(
            vstd::slice::slice_subrange(out.as_slice(), start + 1, end),
        );
        let ghost line = row@;
        filter.apply(row.as_mut_slice(), prev_scanline.as_slice(), bpp);
        proof {
            lemma_unfilter_prefix_len(filter, line, prev_scanline@, bpp as int, line.len());
        }
        let ghost before = out@;
        let mut k: usize = 0;
        while k < row.len()
            invariant
                k <= row@.len(),
                row@.len() == end - start - 1,
                start + 1 + row@.len() == end,
                end <= len,
                out@.len() == len,
                before.len() == len,
                out@ == before.subrange(0, start + 1) + row@.subrange(0, k as int)
                    + before.subrange(start + 1 + k, len as int),
            decreases row@.len() - k,
        {
            out[start + 1 + k] = row[k];
            k += 1;
            proof {
                assert(out@ =~= before.subrange(0, start + 1) + row@.subrange(0, k as int)
                    + before.subrange(start + 1 + k, len as int));
            }
        }
        proof {
            assert(row@.subrange(0, row@.len() as int) =~= row@);
            assert(out@ =~= before.subrange(0, start + 1) + row@ + before.subrange(
                end as int,
                len as int,
            ));
        }
        prev_scanline = row;
        i += 1;
    }
    Ok(())
}

/// Decodes the image of a well-formed chunk sequence: one whose chunk counts, ordering,
/// header, palette and image data are all valid. `try_parse_chunk` is the form that reports
/// which check a sequence fails.
pub fn parse_chunk(chunks: &Vec<Chunk>) -> (info: ImageInfo)
    requires
        spec_parse_chunk(chunk_views(chunks@)) is Ok,
    ensures
        match spec_parse_chunk(chunk_views(chunks@)) {
            Ok((rows, kinds)) => {
                let h = chunk_views(chunks@)[0].data;
                let idat = concat_data(chunk_views(chunks@), IDAT@);
                &&& info.scanlines@ == rows
                &&& info.zlib.block_types@ == kinds
                &&& info.zlib.preset_dictionary == ((idat[1] / 32) % 2 == 1)
                &&& info.zlib.compression_level == idat[1] / 64
                &&& info.zlib.check == spec_be_u32(idat, idat.len() - 4)
                &&& info.header.width == spec_be_u32(h, 0)
                &&& info.header.height == spec_be_u32(h, 4)
                &&& info.header.bit_width == h[8]
                &&& info.header.color_type == h[9]
                &&& info.header.compression_method == h[10]
                &&& info.header.filter_method == h[11]
                &&& info.header.interlace_method == h[12]
                &&& info.image_type == spec_image_type(h[9])
                &&& info.compression == CompressionMethod::Deflate
                &&& info.filter == FilterMethod::Zero
                &&& info.interlace == if h[12] == 0 {
                    InterlaceMethod::NotInterlaced
                } else {
                    InterlaceMethod::Adam7
                }
            },
            Err(_) => false,
        },
{
    try_parse_chunk(chunks).unwrap()
}

/// Decodes the image of a chunk sequence: checks the chunk counts and ordering, reads IHDR,
/// checks PLTE, inflates the concatenated IDAT data and undoes the row filters.
#[verifier::rlimit(30)]
pub fn try_parse_chunk(chunks: &Vec<Chunk>) -> (r: Result<ImageInfo, PngError>)
    ensures
        match spec_parse_chunk(chunk_views(chunks@)) {
            Ok((rows, kinds)) => {
                let h = chunk_views(chunks@)[0].data;
                let idat = concat_data(chunk_views(chunks@), IDAT@);
                &&& r matches Ok(info)
                &&& info.scanlines@ == rows
                &&& info.zlib.block_types@ == kinds
                &&& info.zlib.preset_dictionary == ((idat[1] / 32) % 2 == 1)
                &&& info.zlib.compression_level == idat[1] / 64
                &&& info.zlib.check == spec_be_u32(idat, idat.len() - 4)
                &&& info.header.width == spec_be_u32(h, 0)
                &&& info.header.height == spec_be_u32(h, 4)
                &&& info.header.bit_width == h[8]
                &&& info.header.color_type == h[9]
                &&& info.header.compression_method == h[10]
                &&& info.header.filter_method == h[11]
                &&& info.header.interlace_method == h[12]
                &&& info.image_type == spec_image_type(h[9])
                &&& info.compression == CompressionMethod::Deflate
                &&& info.filter == FilterMethod::Zero
                &&& info.interlace == if h[12] == 0 {
                    InterlaceMethod::NotInterlaced
                } else {
                    InterlaceMethod::Adam7
                }
            },
            Err(e) => r matches Err(e2) && e2 == e,
        },
{
    let ghost cs = chunk_views(chunks@);
    match try_check_chunk_count(chunks) {
        Ok(()) => {},
        Err(e) => {
            return Err(e);
        },
    }
    match try_check_chunk_ordering(chunks) {
        Ok(()) => {},
        Err(e) => {
            return Err(e);
        },
    }
    proof {
        lemma_first_of_bounds(cs, IHDR@, 0);
    }
    let ihdr = chunks[0].data;
    if ihdr.len() < 13 {
        return Err(PngError::IhdrTooShort);
    }
    let header = IHDRChunkData::parse(ihdr);
    let ct = header.color_type;
    if !(ct == 0 || ct == 2 || ct == 3 || ct == 4 || ct == 6) {
        return Err(PngError::InvalidColorType);
    }
    let image_type = ImageType::image_type(ct);
    if header.compression_method != 0 {
        return Err(PngError::InvalidCompressionMethod);
    }
    let compression = CompressionMethod::method(header.compression_method);
    if header.filter_method != 0 {
        return Err(PngError::InvalidFilterMethod);
    }
    let filter = FilterMethod::method(header.filter_method);
    if header.interlace_method > 1 {
        return Err(PngError::InvalidInterlaceMethod);
    }
    let interlace = InterlaceMethod::method(header.interlace_method);
    match palette(chunks) {
        Some(n) => {
            if n % 3 != 0 {
                return Err(PngError::PaletteLength);
            }
        },
        None => {},
    }
    let idat = idat_data(chunks);
    let mut out: Vec<u8> = Vec::new();
    proof {
        assert(out@ =~= seq![]);
    }
    let zinfo = match try_zlib(idat.as_slice(), &mut out) {
        Ok(z) => z,
        Err(e) => {
            return Err(e);
        },
    };
    let len = out.len();
    let channal = image_type.channal();
    let height = header.height as usize;
    if height == 0 {
        return Err(PngError::ZeroHeight);
    }
    let scan = len / height;
    if scan == 0 {
        return Err(PngError::EmptyScanline);
    }
    assert(channal * (header.bit_width as usize) <= 1020) by (nonlinear_arith)
        requires
            channal <= 4,
            header.bit_width <= 255,
    ;
    let bpp = channal * header.bit_width as usize / 8;
    match unfilter_rows(&mut out, height, scan, bpp) {
        Ok(()) => {},
        Err(e) => {
            return Err(e);
        },
    }
    Ok(
        ImageInfo {
            header,
            image_type,
            compression,
            filter,
            interlace,
            zlib: zinfo,
            scanlines: out,
        },
    )
}

/// Gamma handling of the encoder: nothing is done.
pub fn gamma_handling() {
}

/// Filter selection heuristic of the encoder: sums the bytes of the row taken as signed
/// magnitudes and discards the sum.
pub fn choose_filter(row: &[u8], _pre_row: &[u8], _bit_depth: u8) {
    let mut _none: u64 = 0;
    let mut i: usize = 0;
    while i < row.len()
        invariant
            i <= row@.len(),
            _none <= 128 * i,
        decreases row@.len() - i,
    {
        let byte = row[i];
        let magnitude: u64 = if byte < 128 {
            byte as u64
        } else {
            256 - byte as u64
        };
        if _none <= u64::MAX - magnitude {
            _none = _none + magnitude;
        }
        i += 1;
    }
}

} // verus!
