use vstd::prelude::*;
use crate::endian::{be_u32, spec_be_u32};

verus! {

/// The five kinds of PNG image, by colour type.
#[derive(Clone, Copy, Debug, PartialEq, Eq, Structural)]
pub enum ImageType {
    Greyscale,
    Truecolor,
    IndexedColor,
    GreyscaleWithAlpha,
    TruecolorWithAlpha,
}

/// The colour types that PNG defines: 0, 2, 3, 4 and 6.
pub open spec fn valid_color_type(v: u8) -> bool {
    v == 0 || v == 2 || v == 3 || v == 4 || v == 6
}

/// The image type of a valid colour type.
pub open spec fn spec_image_type(v: u8) -> ImageType {
    if v == 0 {
        ImageType::Greyscale
    } else if v == 2 {
        ImageType::Truecolor
    } else if v == 3 {
        ImageType::IndexedColor
    } else if v == 4 {
        ImageType::GreyscaleWithAlpha
    } else {
        ImageType::TruecolorWithAlpha
    }
}

/// The number of channels (samples per pixel) of an image type.
pub open spec fn spec_channels(t: ImageType) -> nat {
    match t {
        ImageType::Greyscale => 1,
        ImageType::Truecolor => 3,
        ImageType::IndexedColor => 1,
        ImageType::GreyscaleWithAlpha => 2,
        ImageType::TruecolorWithAlpha => 4,
    }
}

impl ImageType {
    /// The image type of a colour type; only the five defined colour types are accepted.
    pub fn image_type(color_type: u8) -> (r: ImageType)
        requires
            valid_color_type(color_type),
        ensures
            r == spec_image_type(color_type),
    {
        match color_type {
            0 => ImageType::Greyscale,
            2 => ImageType::Truecolor,
            3 => ImageType::IndexedColor,
            4 => ImageType::GreyscaleWithAlpha,
            _ => ImageType::TruecolorWithAlpha,
        }
    }

    /// The number of channels of a pixel of this type.
    pub fn channal(self) -> (r: usize)
        ensures
            r == spec_channels(self),
    {
        match self {
            ImageType::Greyscale => 1,
            ImageType::Truecolor => 3,
            ImageType::IndexedColor => 1,
            ImageType::GreyscaleWithAlpha => 2,
            ImageType::TruecolorWithAlpha => 4,
        }
    }
}

/// The interlace methods: none, or Adam7.
#[derive(Clone, Copy, Debug, PartialEq, Eq, Structural)]
pub enum InterlaceMethod {
    NotInterlaced,
    Adam7,
}

impl InterlaceMethod {
    /// The interlace method with the given number; only 0 and 1 are defined.
    pub fn method(val: u8) -> (r: InterlaceMethod)
        requires
            val <= 1,
        ensures
            r == (if val == 0 {
                InterlaceMethod::NotInterlaced
            } else {
                InterlaceMethod::Adam7
            }),
    {
        match val {
            0 => InterlaceMethod::NotInterlaced,
            _ => InterlaceMethod::Adam7,
        }
    }
}

/// The filter methods: only method 0 (adaptive filtering with five filter types) is defined.
#[derive(Clone, Copy, Debug, PartialEq, Eq, Structural)]
pub enum FilterMethod {
    Zero,
}

impl FilterMethod {
    /// The filter method with the given number; only 0 is defined.
    pub fn method(val: u8) -> (r: FilterMethod)
        requires
            val == 0,
        ensures
            r == FilterMethod::Zero,
    {
        FilterMethod::Zero
    }
}

/// The compression methods: only method 0 (deflate) is defined.
#[derive(Clone, Copy, Debug, PartialEq, Eq, Structural)]
pub enum CompressionMethod {
    Deflate,
}

impl CompressionMethod {
    /// The compression method with the given number; only 0 is defined.
    pub fn method(val: u8) -> (r: CompressionMethod)
        requires
            val == 0,
        ensures
            r == CompressionMethod::Deflate,
    {
        CompressionMethod::Deflate
    }
}

/// The five filter types of filter method 0.
#[derive(Clone, Copy, Debug, PartialEq, Eq, Structural)]
pub enum FilterType {
    NoFilter,
    Sub,
    Up,
    Average,
    Paeth,
}

/// The filter type with the given number, 0 to 4.
pub open spec fn spec_filter_type(v: u8) -> FilterType {
    if v == 0 {
        FilterType::NoFilter
    } else if v == 1 {
        FilterType::Sub
    } else if v == 2 {
        FilterType::Up
    } else if v == 3 {
        FilterType::Average
    } else {
        FilterType::Paeth
    }
}

/// Byte addition modulo 256.
pub open spec fn add8(x: u8, y: u8) -> u8 {
    ((x + y) % 256) as u8
}

/// The Paeth predictor: of the left (`a`), above (`b`) and upper-left (`c`) bytes, the one
/// closest to `a + b - c`, ties going to `a`, then `b`.
pub open spec fn spec_paeth(a: u8, b: u8, c: u8) -> u8 {
    let p = a + b - c;
    let pa = if p >= a {
        p - a
    } else {
        a - p
    };
    let pb = if p >= b {
        p - b
    } else {
        b - p
    };
    let pc = if p >= c {
        p - c
    } else {
        c - p
    };
    if pa <= pb && pa <= pc {
        a
    } else if pb <= pc {
        b
    } else {
        c
    }
}

/// The distance between two integers.
pub open spec fn abs_diff(x: int, y: int) -> int {
    if x >= y {
        x - y
    } else {
        y - x
    }
}

/// Law: the Paeth predictor is whichever of the left byte `a`, the byte above `b` and the
/// upper-left byte `c` lies nearest to the estimate `a + b - c`; when several are nearest, `a`
/// wins over `b` and `c`, and `b` wins over `c`.
pub proof fn lemma_paeth_nearest(a: u8, b: u8, c: u8)
    ensures
        ({
            let p = a + b - c;
            let r = spec_paeth(a, b, c);
            &&& r == a || r == b || r == c
            &&& abs_diff(p, r as int) <= abs_diff(p, a as int)
            &&& abs_diff(p, r as int) <= abs_diff(p, b as int)
            &&& abs_diff(p, r as int) <= abs_diff(p, c as int)
            &&& (abs_diff(p, a as int) <= abs_diff(p, b as int) && abs_diff(p, a as int) <= abs_diff(
                p,
                c as int,
            )) ==> r == a
            &&& (abs_diff(p, b as int) < abs_diff(p, a as int) && abs_diff(p, b as int) <= abs_diff(
                p,
                c as int,
            )) ==> r == b
        }),
{
}

/// The reconstructed byte `i` of a filtered scanline `line`, given the reconstructed previous
/// scanline `prev`, the bytes per complete pixel `bpp`, and the bytes `done` already
/// reconstructed before it. With `bpp` zero the byte to the left is the byte itself.
pub open spec fn recon_byte(
    ft: FilterType,
    line: Seq<u8>,
    prev: Seq<u8>,
    bpp: int,
    done: Seq<u8>,
    i: int,
) -> u8 {
    let x = line[i];
    let a: u8 = if i >= bpp {
        if bpp == 0 {
            line[i]
        } else {
            done[i - bpp]
        }
    } else {
        0
    };
    let b: u8 = prev[i];
    let c: u8 = if i >= bpp {
        prev[i - bpp]
    } else {
        0
    };
    match ft {
        FilterType::NoFilter => x,
        FilterType::Sub => add8(x, a),
        FilterType::Up => add8(x, b),
        FilterType::Average => add8(x, ((a + b) / 2) as u8),
        FilterType::Paeth => add8(x, spec_paeth(a, b, c)),
    }
}

/// The first `n` reconstructed bytes of a scanline.
pub open spec fn unfilter_prefix(ft: FilterType, line: Seq<u8>, prev: Seq<u8>, bpp: int, n: nat) -> Seq<
    u8,
>
    decreases n,
{
    if n == 0 {
        seq![]
    } else {
        let done = unfilter_prefix(ft, line, prev, bpp, (n - 1) as nat);
        done.push(recon_byte(ft, line, prev, bpp, done, n - 1))
    }
}

/// A scanline with its filter undone.
pub open spec fn spec_unfilter(ft: FilterType, line: Seq<u8>, prev: Seq<u8>, bpp: int) -> Seq<u8> {
    unfilter_prefix(ft, line, prev, bpp, line.len())
}

pub proof fn lemma_unfilter_prefix_len(ft: FilterType, line: Seq<u8>, prev: Seq<u8>, bpp: int, n: nat)
    ensures
        unfilter_prefix(ft, line, prev, bpp, n).len() == n,
    decreases n,
{
    if n > 0 {
        lemma_unfilter_prefix_len(ft, line, prev, bpp, (n - 1) as nat);
    }
}

/// The bytes before the first complete pixel are unchanged by the Sub filter.
proof fn lemma_sub_head(line: Seq<u8>, prev: Seq<u8>, bpp: int, n: nat)
    requires
        n <= bpp,
        n <= line.len(),
    ensures
        unfilter_prefix(FilterType::Sub, line, prev, bpp, n) == line.take(n as int),
    decreases n,
{
    if n > 0 {
        lemma_sub_head(line, prev, bpp, (n - 1) as nat);
        assert(line.take(n as int) =~= line.take(n - 1).push(line[n - 1]));
    }
}

impl FilterType {
    /// The filter type with the given number; only 0 to 4 are defined.
    pub fn filter_type(val: u8) -> (r: FilterType)
        requires
            val <= 4,
        ensures
            r == spec_filter_type(val),
    {
        match val {
            0 => FilterType::NoFilter,
            1 => FilterType::Sub,
            2 => FilterType::Up,
            3 => FilterType::Average,
            _ => FilterType::Paeth,
        }
    }

    /// The Paeth predictor.
    fn paeth(a: u8, b: u8, c: u8) -> (r: u8)
        ensures
            r == spec_paeth(a, b, c),
    {
        let p = a as i32 + b as i32 - c as i32;
        let pa = if p - a as i32 >= 0 {
            p - a as i32
        } else {
            a as i32 - p
        };
        let pb = if p - b as i32 >= 0 {
            p - b as i32
        } else {
            b as i32 - p
        };
        let pc = if p - c as i32 >= 0 {
            p - c as i32
        } else {
            c as i32 - p
        };
        if pa <= pb && pa <= pc {
            a
        } else if pb <= pc {
            b
        } else {
            c
        }
    }

    /// The reconstructed byte `i` of a scanline whose first `i` bytes are already
    /// reconstructed.
    fn recon_at(
        ft: FilterType,
        scanline: &[u8],
        prev_scanline: &[u8],
        bpp: usize,
        i: usize,
        Ghost(line): Ghost<Seq<u8>>,
        Ghost(done): Ghost<Seq<u8>>,
    ) -> (r: u8)
        requires
            ft is Up || ft is Average || ft is Paeth,
            i < line.len(),
            prev_scanline@.len() >= line.len(),
            done.len() == i,
            scanline@ == done + line.subrange(i as int, line.len() as int),
        ensures
            r == recon_byte(ft, line, prev_scanline@, bpp as int, done, i as int),
    {
        proof {
            assert(scanline@[i as int] == line[i as int]);
            if i >= bpp && bpp > 0 {
                assert(scanline@[i - bpp] == done[i - bpp]);
            }
            if i >= bpp && bpp == 0 {
                assert(scanline@[i - bpp] == line[i as int]);
            }
        }
        let x = scanline[i];
        let a = if i >= bpp {
            scanline[i - bpp]
        } else {
            0
        };
        let b = prev_scanline[i];
        let d = match ft {
            FilterType::Up => b,
            FilterType::Average => ((a as u16 + b as u16) / 2) as u8,
            _ => {
                let c = if i >= bpp {
                    prev_scanline[i - bpp]
                } else {
                    0
                };
                Self::paeth(a, b, c)
            },
        };
        let r = x.wrapping_add(d);
        assert(r == add8(x, d));
        r
    }

    /// Undoes this filter on `scanline`, given the reconstructed previous scanline and the
    /// number of bytes per complete pixel.
    pub fn apply(&self, scanline: &mut [u8], prev_scanline: &[u8], bpp: usize)
        requires
            (*self is Up || *self is Average || *self is Paeth) ==> prev_scanline@.len()
                >= old(scanline)@.len(),
        ensures
            final(scanline)@ == spec_unfilter(*self, old(scanline)@, prev_scanline@, bpp as int),
    {
        let ghost line = scanline@;
        let ghost prev = prev_scanline@;
        let ghost ft = *self;
        let len = scanline.len();
        match self {
            FilterType::NoFilter => {
                proof {
                    assert forall|n: nat| n <= line.len() implies #[trigger] unfilter_prefix(
                        ft,
                        line,
                        prev,
                        bpp as int,
                        n,
                    ) == line.take(n as int) by {
                        lemma_none_prefix(line, prev, bpp as int, n);
                    }
                    assert(line.take(line.len() as int) =~= line);
                }
            },
            FilterType::Sub => {
                let start = if bpp < len {
                    bpp
                } else {
                    len
                };
                proof {
                    lemma_sub_head(line, prev, bpp as int, start as nat);
                    assert(scanline@ =~= unfilter_prefix(ft, line, prev, bpp as int, start as nat)
                        + line.subrange(start as int, len as int));
                }
                let mut i = start;
                while i < len
                    invariant
                        start <= i <= len,
                        len == line.len(),
                        bpp <= start || start == len,
                        ft == FilterType::Sub,
                        scanline@ == unfilter_prefix(ft, line, prev, bpp as int, i as nat)
                            + line.subrange(i as int, len as int),
                    decreases len - i,
                {
                    proof {
                        lemma_unfilter_prefix_len(ft, line, prev, bpp as int, i as nat);
                    }
                    let v = scanline[i].wrapping_add(scanline[i - bpp]);
                    scanline[i] = v;
                    i += 1;
                    proof {
                        assert(scanline@ =~= unfilter_prefix(ft, line, prev, bpp as int, i as nat)
                            + line.subrange(i as int, len as int));
                    }
                }
                proof {
                    assert(scanline@ =~= unfilter_prefix(ft, line, prev, bpp as int, len as nat));
                }
            },
            _ => {
                proof {
                    assert(scanline@ =~= unfilter_prefix(ft, line, prev, bpp as int, 0)
                        + line.subrange(0, len as int));
                }
                let mut i: usize = 0;
                while i < len
                    invariant
                        i <= len,
                        len == line.len(),
                        prev_scanline@ == prev,
                        prev.len() >= len,
                        ft is Up || ft is Average || ft is Paeth,
                        ft == *self,
                        scanline@ == unfilter_prefix(ft, line, prev, bpp as int, i as nat)
                            + line.subrange(i as int, len as int),
                    decreases len - i,
                {
                    proof {
                        lemma_unfilter_prefix_len(ft, line, prev, bpp as int, i as nat);
                    }
                    let v = Self::recon_at(
                        *self,
                        scanline,
                        prev_scanline,
                        bpp,
                        i,
                        Ghost(line),
                        Ghost(unfilter_prefix(ft, line, prev, bpp as int, i as nat)),
                    );
                    scanline[i] = v;
                    i += 1;
                    proof {
                        assert(scanline@ =~= unfilter_prefix(ft, line, prev, bpp as int, i as nat)
                            + line.subrange(i as int, len as int));
                    }
                }
                proof {
                    assert(scanline@ =~= unfilter_prefix(ft, line, prev, bpp as int, len as nat));
                }
            },
        }
    }
}

/// Undoing filter type 0 leaves a scanline as it is.
pub proof fn lemma_unfilter_none(line: Seq<u8>, prev: Seq<u8>, bpp: int)
    ensures
        spec_unfilter(FilterType::NoFilter, line, prev, bpp) == line,
{
    lemma_none_prefix(line, prev, bpp, line.len());
    assert(line.take(line.len() as int) =~= line);
}

proof fn lemma_none_prefix(line: Seq<u8>, prev: Seq<u8>, bpp: int, n: nat)
    requires
        n <= line.len(),
    ensures
        unfilter_prefix(FilterType::NoFilter, line, prev, bpp, n) == line.take(n as int),
    decreases n,
{
    if n > 0 {
        lemma_none_prefix(line, prev, bpp, (n - 1) as nat);
        assert(line.take(n as int) =~= line.take(n - 1).push(line[n - 1]));
    }
}

proof fn lemma_unfilter_prefix_stable(
    ft: FilterType,
    line: Seq<u8>,
    prev: Seq<u8>,
    bpp: int,
    m: nat,
    n: nat,
)
    requires
        m <= n,
    ensures
        unfilter_prefix(ft, line, prev, bpp, n).take(m as int) == unfilter_prefix(
            ft,
            line,
            prev,
            bpp,
            m,
        ),
    decreases n,
{
    lemma_unfilter_prefix_len(ft, line, prev, bpp, n);
    lemma_unfilter_prefix_len(ft, line, prev, bpp, m);
    if m == n {
        assert(unfilter_prefix(ft, line, prev, bpp, n).take(m as int) =~= unfilter_prefix(
            ft,
            line,
            prev,
            bpp,
            n,
        ));
    } else {
        lemma_unfilter_prefix_stable(ft, line, prev, bpp, m, (n - 1) as nat);
        lemma_unfilter_prefix_len(ft, line, prev, bpp, (n - 1) as nat);
        assert(unfilter_prefix(ft, line, prev, bpp, n).take(m as int) =~= unfilter_prefix(
            ft,
            line,
            prev,
            bpp,
            (n - 1) as nat,
        ).take(m as int));
    }
}

/// Law: each byte of an unfiltered scanline is the filtered byte plus, modulo 256, the
/// prediction that the filter type makes from bytes already reconstructed: nothing for type
/// 0; the byte one pixel to the left for Sub; the byte above for Up; the rounded-down mean of
/// those two for Average; for Paeth, the Paeth predictor of the left, above and upper-left
/// bytes. Bytes left of the first pixel and above the first row count as 0.
pub proof fn lemma_unfilter_bytes(ft: FilterType, line: Seq<u8>, prev: Seq<u8>, bpp: int, i: int)
    requires
        1 <= bpp,
        0 <= i < line.len(),
        line.len() <= prev.len(),
    ensures
        ({
            let r = spec_unfilter(ft, line, prev, bpp);
            let left: int = if i >= bpp {
                r[i - bpp] as int
            } else {
                0
            };
            let up: int = prev[i] as int;
            let upper_left: int = if i >= bpp {
                prev[i - bpp] as int
            } else {
                0
            };
            &&& r.len() == line.len()
            &&& (r[i] - line[i]) % 256 == match ft {
                FilterType::NoFilter => 0,
                FilterType::Sub => left,
                FilterType::Up => up,
                FilterType::Average => (left + up) / 2,
                FilterType::Paeth => spec_paeth(left as u8, up as u8, upper_left as u8) as int,
            }
        }),
{
    let n = line.len();
    lemma_unfilter_prefix_len(ft, line, prev, bpp, n);
    lemma_unfilter_prefix_stable(ft, line, prev, bpp, (i + 1) as nat, n);
    lemma_unfilter_prefix_len(ft, line, prev, bpp, i as nat);
    let r = spec_unfilter(ft, line, prev, bpp);
    let done = unfilter_prefix(ft, line, prev, bpp, i as nat);
    assert(r[i] == recon_byte(ft, line, prev, bpp, done, i)) by {
        assert(r.take(i + 1)[i] == r[i]);
    }
    if i >= bpp {
        lemma_unfilter_prefix_stable(ft, line, prev, bpp, i as nat, n);
        assert(r.take(i)[i - bpp] == r[i - bpp]);
        assert(done[i - bpp] == r[i - bpp]);
    }
    let x = line[i];
    let a: u8 = if i >= bpp {
        done[i - bpp]
    } else {
        0
    };
    let b: u8 = prev[i];
    let c: u8 = if i >= bpp {
        prev[i - bpp]
    } else {
        0
    };
    let pred: u8 = match ft {
        FilterType::NoFilter => 0,
        FilterType::Sub => a,
        FilterType::Up => b,
        FilterType::Average => ((a + b) / 2) as u8,
        FilterType::Paeth => spec_paeth(a, b, c),
    };
    assert(r[i] == add8(x, pred));
    lemma_add8_sub(x, pred);
}

/// Adding `y` modulo 256 and taking `x` away again leaves `y`.
proof fn lemma_add8_sub(x: u8, y: u8)
    ensures
        (add8(x, y) - x) % 256 == y,
{
    if x + y < 256 {
        assert(add8(x, y) == x + y);
    } else {
        assert(add8(x, y) == x + y - 256);
        assert((y - 256) % 256 == y) by {
            vstd::arithmetic::div_mod::lemma_mod_add_multiples_vanish(y as int - 256, 256);
        }
    }
}

/// The fields of an IHDR chunk.
pub struct IHDRChunkData {
    pub width: u32,
    pub height: u32,
    pub bit_width: u8,
    pub color_type: u8,
    pub compression_method: u8,
    pub filter_method: u8,
    pub interlace_method: u8,
}

impl IHDRChunkData {
    /// Reads the IHDR fields from the first 13 bytes of the chunk data.
    pub fn parse(buf: &[u8]) -> (r: IHDRChunkData)
        requires
            buf@.len() >= 13,
        ensures
            r.width == spec_be_u32(buf@, 0),
            r.height == spec_be_u32(buf@, 4),
            r.bit_width == buf@[8],
            r.color_type == buf@[9],
            r.compression_method == buf@[10],
            r.filter_method == buf@[11],
            r.interlace_method == buf@[12],
    {
        let width = be_u32(buf, 0);
        let height = be_u32(buf, 4);
        let bit_width = buf[8];
        let color_type = buf[9];
        let compression_method = buf[10];
        let filter_method = buf[11];
        let interlace_method = buf[12];
        IHDRChunkData {
            width,
            height,
            bit_width,
            color_type,
            compression_method,
            filter_method,
            interlace_method,
        }
    }
}

} // verus!
