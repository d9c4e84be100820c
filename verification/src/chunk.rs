use vstd::prelude::*;
use vstd::utf8::{valid_utf8, decode_utf8};
use crate::crc::{make_crc_table, crc_update, spec_crc32, lemma_crc_register_concat};
use crate::endian::{be_u32, spec_be_u32, be_bytes, lemma_be_bytes};
use crate::error::PngError;

verus! {

/// The 8-byte signature that starts every PNG stream.
pub const PNG_SIGNATURE: [u8; 8] = [0x89, 0x50, 0x4E, 0x47, 0x0D, 0x0A, 0x1A, 0x0A];

/// Chunk type `IHDR`.
pub const IHDR: [u8; 4] = [73, 72, 68, 82];

/// Chunk type `PLTE`.
pub const PLTE: [u8; 4] = [80, 76, 84, 69];


/// Chunk type `IDAT`.
pub const IDAT: [u8; 4] = [73, 68, 65, 84];

/// Chunk type `IEND`.
pub const IEND: [u8; 4] = [73, 69, 78, 68];

/// A chunk as its fields give it.
pub struct ChunkView {
    pub length: u32,
    pub chunk_type: Seq<u8>,
    pub data: Seq<u8>,
    pub crc: u32,
}

/// A chunk of a PNG stream: length, type, data and CRC.
pub struct Chunk<'a> {
    pub length: u32,
    pub chunk_type: [u8; 4],
    pub data: &'a [u8],
    pub crc: u32,
}

impl<'a> View for Chunk<'a> {
    type V = ChunkView;

    open spec fn view(&self) -> ChunkView {
        ChunkView {
            length: self.length,
            chunk_type: self.chunk_type@,
            data: self.data@,
            crc: self.crc,
        }
    }
}

/// The fields of each chunk of a sequence.
pub open spec fn chunk_views<'a>(chunks: Seq<Chunk<'a>>) -> Seq<ChunkView> {
    chunks.map_values(|c: Chunk<'a>| c@)
}

/// `"true"` or `"false"`, as `bool` is displayed.
pub open spec fn bool_text(b: bool) -> Seq<char> {
    if b {
        "true"@
    } else {
        "false"@
    }
}

/// Property bit (bit 5) of byte `i` of a chunk type is clear.
pub open spec fn type_bit_clear(chunk_type: Seq<u8>, i: int) -> bool {
    chunk_type[i] & 32 == 0
}

/// Calls `std::str::from_utf8`. Its contract claims that the call succeeds exactly when the
/// bytes are valid UTF-8 (`valid_utf8`), and that the text it gives is their decoding
/// (`decode_utf8`), as the standard library documents.
#[verifier::external_body]
pub(crate) fn str_from_utf8(bytes: &[u8]) -> (r: Option<&str>)
    ensures
        r is Some <==> valid_utf8(bytes@),
        r matches Some(s) ==> s@ == decode_utf8(bytes@),
{
    std::str::from_utf8(bytes).ok()
}

/// Two chunk types are equal.
pub fn same_type(a: &[u8; 4], b: &[u8; 4]) -> (r: bool)
    ensures
        r == (a@ == b@),
{
    let r = a[0] == b[0] && a[1] == b[1] && a[2] == b[2] && a[3] == b[3];
    proof {
        if r {
            assert(a@ =~= b@);
        }
    }
    r
}

impl<'a> Chunk<'a> {
    /// Checks the stored CRC against the CRC-32 of the chunk type and data.
    pub fn verify_crc(&self) -> (r: bool)
        ensures
            r == (spec_crc32(self.chunk_type@ + self.data@) == self.crc),
    {
        let table = make_crc_table();
        let mut crc: u32 = 0xffffffff;
        crc = crc_update(&table, crc, self.chunk_type.as_slice());
        crc = crc_update(&table, crc, self.data);
        proof {
            lemma_crc_register_concat(0xffffffff, self.chunk_type@, self.data@);
        }
        crc ^= 0xffffffff;
        crc == self.crc
    }

    /// The chunk type as text, or `<invalid>` when its bytes are not valid UTF-8.
    pub fn chunk_type(&self) -> (r: &str)
        ensures
            r@ == if valid_utf8(self.chunk_type@) {
                decode_utf8(self.chunk_type@)
            } else {
                "<invalid>"@
            },
    {
        match str_from_utf8(self.chunk_type.as_slice()) {
            Some(s) => s,
            None => "<invalid>",
        }
    }

    /// Bit 5 of the first type byte is clear: the chunk is critical.
    pub fn is_critical(&self) -> (r: bool)
        ensures
            r == type_bit_clear(self.chunk_type@, 0),
    {
        self.chunk_type[0] & 0b00100000 == 0
    }

    /// Bit 5 of the first type byte is set: the chunk is ancillary.
    pub fn is_ancillary(&self) -> (r: bool)
        ensures
            r == !type_bit_clear(self.chunk_type@, 0),
    {
        self.chunk_type[0] & 0b00100000 != 0
    }

    /// Bit 5 of the second type byte is clear: the chunk type is public.
    pub fn is_public(&self) -> (r: bool)
        ensures
            r == type_bit_clear(self.chunk_type@, 1),
    {
        self.chunk_type[1] & 0b00100000 == 0
    }

    /// Bit 5 of the second type byte is set: the chunk type is private.
    pub fn is_private(&self) -> (r: bool)
        ensures
            r == !type_bit_clear(self.chunk_type@, 1),
    {
        self.chunk_type[1] & 0b00100000 != 0
    }

    /// Bit 5 of the third type byte is clear, as this version of PNG requires.
    pub fn is_conform(&self) -> (r: bool)
        ensures
            r == type_bit_clear(self.chunk_type@, 2),
    {
        self.chunk_type[2] & 0b00100000 == 0
    }

    /// Bit 5 of the third (reserved) type byte is set, which this version of PNG does not
    /// allow.
    pub fn not_conform(&self) -> (r: bool)
        ensures
            r == !type_bit_clear(self.chunk_type@, 2),
    {
        self.chunk_type[2] & 0b00100000 != 0
    }

    /// Bit 5 of the fourth type byte is clear: the chunk is unsafe to copy.
    pub fn unsafe_to_copy(&self) -> (r: bool)
        ensures
            r == type_bit_clear(self.chunk_type@, 3),
    {
        self.chunk_type[3] & 0b00100000 == 0
    }

    /// Bit 5 of the fourth type byte is set: the chunk is safe to copy.
    pub fn safe_to_copy(&self) -> (r: bool)
        ensures
            r == !type_bit_clear(self.chunk_type@, 3),
    {
        self.chunk_type[3] & 0b00100000 != 0
    }

    /// A line describing the property bits: for each of the four type bytes, whether its bit 5
    /// is set, labelled Ancillary, Private, Reserved and Safe-to-copy.
    pub fn property(&self) -> (r: String)
        ensures
            r@ == "property: Ancillary("@ + bool_text(!type_bit_clear(self.chunk_type@, 0))
                + ") Private("@ + bool_text(!type_bit_clear(self.chunk_type@, 1))
                + ") Reserved("@ + bool_text(!type_bit_clear(self.chunk_type@, 2))
                + ") Safe-to-copy("@ + bool_text(!type_bit_clear(self.chunk_type@, 3)) + ")"@,
    {
        let mut s = String::from_str("property: Ancillary(");
        s.append(bool_str(self.is_ancillary()));
        s.append(") Private(");
        s.append(bool_str(self.is_private()));
        s.append(") Reserved(");
        s.append(bool_str(self.not_conform()));
        s.append(") Safe-to-copy(");
        s.append(bool_str(self.safe_to_copy()));
        s.append(")");
        s
    }
}

/// `"true"` or `"false"`.
fn bool_str(b: bool) -> (r: &'static str)
    ensures
        r@ == bool_text(b),
{
    if b {
        "true"
    } else {
        "false"
    }
}

// ---------------------------------------------------------------------------------------------
// The chunk layout
// ---------------------------------------------------------------------------------------------

/// Splitting `buf` from `pos` into chunks, each a 4-byte big-endian length, a 4-byte type, that
/// many data bytes and a 4-byte CRC, until the end of the buffer; `None` when a chunk runs
/// past the end.
pub open spec fn spec_read_chunks(buf: Seq<u8>, pos: int) -> Option<Seq<ChunkView>>
    decreases buf.len() - pos,
{
    if pos >= buf.len() {
        Some(seq![])
    } else if pos < 0 || pos + 8 > buf.len() {
        None
    } else {
        let length = spec_be_u32(buf, pos);
        let end = pos + 8 + length;
        if end + 4 > buf.len() {
            None
        } else {
            let c = ChunkView {
                length: length as u32,
                chunk_type: buf.subrange(pos + 4, pos + 8),
                data: buf.subrange(pos + 8, end),
                crc: spec_be_u32(buf, end) as u32,
            };
            match spec_read_chunks(buf, end + 4) {
                None => None,
                Some(rest) => Some(seq![c] + rest),
            }
        }
    }
}

/// Splits the bytes after the signature into chunks.
pub fn try_read_chunk<'a>(buf: &'a [u8]) -> (r: Result<Vec<Chunk<'a>>, PngError>)
    ensures
        match spec_read_chunks(buf@, 0) {
            Some(cs) => r matches Ok(v) && chunk_views(v@) == cs,
            None => r matches Err(e) && e == PngError::TruncatedChunk,
        },
{
    let len = buf.len();
    let mut pos: usize = 0;
    let mut chunks: Vec<Chunk<'a>> = Vec::new();
    let ghost whole = spec_read_chunks(buf@, 0);
    proof {
        assert(chunk_views(chunks@) =~= seq![]);
        if let Some(cs) = whole {
            assert(seq![] + cs =~= cs);
        }
    }
    loop
        invariant
            len == buf@.len(),
            pos <= len,
            whole == spec_read_chunks(buf@, 0),
            match spec_read_chunks(buf@, pos as int) {
                Some(rest) => whole == Some(chunk_views(chunks@) + rest),
                None => whole is None,
            },
        decreases len - pos,
    {
        if pos >= len {
            proof {
                assert(chunk_views(chunks@) + seq![] =~= chunk_views(chunks@));
            }
            return Ok(chunks);
        }
        if len - pos < 8 {
            return Err(PngError::TruncatedChunk);
        }
        let length = be_u32(buf, pos);
        let chunk_type: [u8; 4] = [buf[pos + 4], buf[pos + 5], buf[pos + 6], buf[pos + 7]];
        let start = pos + 8;
        if len - start < length as usize || len - start - (length as usize) < 4 {
            return Err(PngError::TruncatedChunk);
        }
        let end = start + length as usize;
        let data = vstd::slice::slice_subrange(buf, start, end);
        let crc = be_u32(buf, end);
        let chunk = Chunk { length, chunk_type, data, crc };
        let ghost before = chunk_views(chunks@);
        proof {
            assert(chunk_type@ =~= buf@.subrange(pos + 4, pos + 8));
        }
        chunks.push(chunk);
        proof {
            assert(chunk_views(chunks@) =~= before.push(chunk@));
            let c = chunk@;
            match spec_read_chunks(buf@, (end + 4) as int) {
                Some(rest) => {
                    assert(before.push(c) + rest =~= before + (seq![c] + rest));
                },
                None => {},
            }
        }
        pos = end + 4;
    }
}

/// The stream layout of a chunk: its length, type, data and CRC.
pub open spec fn chunk_bytes(c: ChunkView) -> Seq<u8> {
    be_bytes(c.length) + c.chunk_type + c.data + be_bytes(c.crc)
}

/// The stream layout of a sequence of chunks, one after the other.
pub open spec fn chunk_stream(cs: Seq<ChunkView>) -> Seq<u8>
    decreases cs.len(),
{
    if cs.len() == 0 {
        seq![]
    } else {
        chunk_bytes(cs[0]) + chunk_stream(cs.drop_first())
    }
}

/// The chunk has a 4-byte type and as many data bytes as its length field says.
pub open spec fn chunk_well_formed(c: ChunkView) -> bool {
    c.chunk_type.len() == 4 && c.data.len() == c.length
}

#[verifier::rlimit(60)]
proof fn lemma_read_chunk_stream_from(p: Seq<u8>, cs: Seq<ChunkView>)
    requires
        forall|i: int| 0 <= i < cs.len() ==> chunk_well_formed(#[trigger] cs[i]),
    ensures
        spec_read_chunks(p + chunk_stream(cs), p.len() as int) == Some(cs),
    decreases cs.len(),
{
    let buf = p + chunk_stream(cs);
    let pos = p.len() as int;
    if cs.len() == 0 {
        assert(buf.len() == pos);
        assert(cs =~= seq![]);
    } else {
        let c = cs[0];
        assert(chunk_well_formed(c));
        let rest = cs.drop_first();
        let q = p + chunk_bytes(c);
        assert(buf =~= q + chunk_stream(rest));
        lemma_be_bytes(c.length);
        lemma_be_bytes(c.crc);
        let end = pos + 8 + c.length;
        assert(q.len() == end + 4);
        assert(buf.subrange(pos, pos + 4) =~= be_bytes(c.length));
        assert(spec_be_u32(buf, pos) == spec_be_u32(be_bytes(c.length), 0));
        assert(buf.subrange(pos + 4, pos + 8) =~= c.chunk_type);
        assert(buf.subrange(pos + 8, end) =~= c.data);
        assert(buf.subrange(end, end + 4) =~= be_bytes(c.crc));
        assert(spec_be_u32(buf, end) == spec_be_u32(be_bytes(c.crc), 0));
        assert forall|i: int| 0 <= i < rest.len() implies chunk_well_formed(#[trigger] rest[i]) by {
            assert(rest[i] == cs[i + 1]);
        }
        lemma_read_chunk_stream_from(q, rest);
        assert(seq![c] + rest =~= cs);
    }
}

/// Law: reading the stream layout of well-formed chunks gives back those chunks.
pub proof fn lemma_read_chunk_stream(cs: Seq<ChunkView>)
    requires
        forall|i: int| 0 <= i < cs.len() ==> chunk_well_formed(#[trigger] cs[i]),
    ensures
        spec_read_chunks(chunk_stream(cs), 0) == Some(cs),
{
    lemma_read_chunk_stream_from(seq![], cs);
    assert(seq![] + chunk_stream(cs) =~= chunk_stream(cs));
}

// ---------------------------------------------------------------------------------------------
// Chunk counts and ordering
// ---------------------------------------------------------------------------------------------

/// How many chunks have type `t`.
pub open spec fn count_type(cs: Seq<ChunkView>, t: Seq<u8>) -> nat
    decreases cs.len(),
{
    if cs.len() == 0 {
        0
    } else {
        count_type(cs.drop_last(), t) + if cs.last().chunk_type == t {
            1nat
        } else {
            0nat
        }
    }
}

/// The index of the first chunk of type `t` from index `i` on.
pub open spec fn first_of(cs: Seq<ChunkView>, t: Seq<u8>, i: int) -> Option<int>
    decreases cs.len() - i,
{
    if i < 0 || i >= cs.len() {
        None
    } else if cs[i].chunk_type == t {
        Some(i)
    } else {
        first_of(cs, t, i + 1)
    }
}

pub proof fn lemma_first_of_bounds(cs: Seq<ChunkView>, t: Seq<u8>, i: int)
    ensures
        first_of(cs, t, i) matches Some(p) ==> i <= p < cs.len() && cs[p].chunk_type == t,
    decreases cs.len() - i,
{
    if 0 <= i < cs.len() && cs[i].chunk_type != t {
        lemma_first_of_bounds(cs, t, i + 1);
    }
}

/// The chunk is an IDAT chunk.
pub open spec fn is_idat(c: ChunkView) -> bool {
    c.chunk_type == IDAT@
}

/// Some chunk that is not IDAT stands between two IDAT chunks.
pub open spec fn idat_gap(cs: Seq<ChunkView>) -> bool {
    exists|i: int, j: int, k: int|
        #![trigger is_idat(cs[i]), is_idat(cs[j]), is_idat(cs[k])]
        0 <= i < j < k < cs.len() && is_idat(cs[i]) && !is_idat(cs[j]) && is_idat(cs[k])
}

/// When the ordering checks pass, the stream starts with IHDR, ends with IEND, and its IDAT
/// chunks follow one another.
pub proof fn lemma_ordering_ok(cs: Seq<ChunkView>)
    requires
        spec_check_chunk_ordering(cs) is Ok,
    ensures
        cs.len() > 0,
        cs[0].chunk_type == IHDR@,
        cs[cs.len() - 1].chunk_type == IEND@,
        !idat_gap(cs),
{
    lemma_first_of_bounds(cs, IHDR@, 0);
    lemma_first_of_bounds(cs, IEND@, 0);
}

/// The chunk count rules, checked in this order: one IHDR, at most one PLTE, at least one
/// IDAT, one IEND.
pub open spec fn spec_check_chunk_count(cs: Seq<ChunkView>) -> Result<(), PngError> {
    if count_type(cs, IHDR@) != 1 {
        Err(PngError::IhdrCount)
    } else if count_type(cs, PLTE@) > 1 {
        Err(PngError::PlteCount)
    } else if count_type(cs, IDAT@) < 1 {
        Err(PngError::NoIdat)
    } else if count_type(cs, IEND@) != 1 {
        Err(PngError::IendCount)
    } else {
        Ok(())
    }
}

/// The chunk ordering rules, checked in this order: IDAT chunks are consecutive, a PLTE
/// chunk comes before the first IDAT, IHDR is first and IEND is last.
pub open spec fn spec_check_chunk_ordering(cs: Seq<ChunkView>) -> Result<(), PngError> {
    if idat_gap(cs) {
        Err(PngError::IdatNotConsecutive)
    } else if first_of(cs, PLTE@, 0) is Some && first_of(cs, IDAT@, 0) is None {
        Err(PngError::PlteWithoutIdat)
    } else if first_of(cs, PLTE@, 0) is Some && !(first_of(cs, PLTE@, 0).unwrap()
        < first_of(cs, IDAT@, 0).unwrap()) {
        Err(PngError::PlteAfterIdat)
    } else if first_of(cs, IHDR@, 0) != Some(0int) {
        Err(PngError::IhdrNotFirst)
    } else if first_of(cs, IEND@, 0) != Some(cs.len() - 1) {
        Err(PngError::IendNotLast)
    } else {
        Ok(())
    }
}

/// The number of chunks of type `t`.
fn count_chunks(chunks: &Vec<Chunk>, t: &[u8; 4]) -> (r: usize)
    ensures
        r == count_type(chunk_views(chunks@), t@),
{
    let mut n: usize = 0;
    let mut i: usize = 0;
    while i < chunks.len()
        invariant
            i <= chunks@.len(),
            n <= i,
            n == count_type(chunk_views(chunks@).take(i as int), t@),
        decreases chunks@.len() - i,
    {
        proof {
            assert(chunk_views(chunks@).take(i + 1).drop_last() =~= chunk_views(chunks@).take(
                i as int,
            ));
        }
        if same_type(&chunks[i].chunk_type, t) {
            n += 1;
        }
        i += 1;
    }
    proof {
        assert(chunk_views(chunks@).take(i as int) =~= chunk_views(chunks@));
    }
    n
}

/// The index of the first chunk of type `t`.
fn position_of(chunks: &Vec<Chunk>, t: &[u8; 4]) -> (r: Option<usize>)
    ensures
        match first_of(chunk_views(chunks@), t@, 0) {
            Some(p) => r == Some(p as usize) && 0 <= p < chunks@.len(),
            None => r is None,
        },
{
    proof {
        lemma_first_of_bounds(chunk_views(chunks@), t@, 0);
    }
    let mut i: usize = 0;
    while i < chunks.len()
        invariant
            i <= chunks@.len(),
            first_of(chunk_views(chunks@), t@, i as int) == first_of(chunk_views(chunks@), t@, 0),
        decreases chunks@.len() - i,
    {
        if same_type(&chunks[i].chunk_type, t) {
            return Some(i);
        }
        i += 1;
    }
    None
}

/// Checks how many times the critical chunk types occur.
pub fn try_check_chunk_count(chunks: &Vec<Chunk>) -> (r: Result<(), PngError>)
    ensures
        r == spec_check_chunk_count(chunk_views(chunks@)),
{
    let ihdr_count = count_chunks(chunks, &IHDR);
    let plte_count = count_chunks(chunks, &PLTE);
    let idat_count = count_chunks(chunks, &IDAT);
    let iend_count = count_chunks(chunks, &IEND);
    if ihdr_count != 1 {
        return Err(PngError::IhdrCount);
    }
    if plte_count > 1 {
        return Err(PngError::PlteCount);
    }
    if idat_count < 1 {
        return Err(PngError::NoIdat);
    }
    if iend_count != 1 {
        return Err(PngError::IendCount);
    }
    Ok(())
}

/// Checks the order of the critical chunks.
#[verifier::loop_isolation(false)]
pub fn try_check_chunk_ordering(chunks: &Vec<Chunk>) -> (r: Result<(), PngError>)
    ensures
        r == spec_check_chunk_ordering(chunk_views(chunks@)),
{
    let ghost cs = chunk_views(chunks@);
    let ihdr_pos = position_of(chunks, &IHDR);
    let plte_pos = position_of(chunks, &PLTE);
    let idat_pos = position_of(chunks, &IDAT);
    let iend_pos = position_of(chunks, &IEND);
    let mut have_idat = false;
    let mut last_idat = false;
    let mut k: usize = 0;
    while k < chunks.len()
        invariant
            k <= chunks@.len(),
            cs == chunk_views(chunks@),
            have_idat == exists|i: int| 0 <= i < k && #[trigger] is_idat(cs[i]),
            last_idat == exists|i: int, j: int|
                #![trigger is_idat(cs[i]), is_idat(cs[j])]
                0 <= i < j < k && is_idat(cs[i]) && !is_idat(cs[j]),
            !exists|i: int, j: int, l: int|
                #![trigger is_idat(cs[i]), is_idat(cs[j]), is_idat(cs[l])]
                0 <= i < j < l < k && is_idat(cs[i]) && !is_idat(cs[j]) && is_idat(cs[l]),
        decreases chunks@.len() - k,
    {
        let here_idat = same_type(&chunks[k].chunk_type, &IDAT);
        proof {
            assert(cs[k as int].chunk_type == chunks@[k as int].chunk_type@);
            assert(is_idat(cs[k as int]) == here_idat);
        }
        if here_idat {
            if last_idat {
                proof {
                    let (i, j) = choose|i: int, j: int|
                        #![trigger is_idat(cs[i]), is_idat(cs[j])]
                        0 <= i < j < k && is_idat(cs[i]) && !is_idat(cs[j]);
                    assert(is_idat(cs[k as int]));
                    assert(idat_gap(cs));
                }
                return Err(PngError::IdatNotConsecutive);
            }
            have_idat = true;
        } else if have_idat {
            last_idat = true;
        }
        k += 1;
    }
    proof {
        if idat_gap(cs) {
            let (i, j, l) = choose|i: int, j: int, l: int|
                #![trigger is_idat(cs[i]), is_idat(cs[j]), is_idat(cs[l])]
                0 <= i < j < l < cs.len() && is_idat(cs[i]) && !is_idat(cs[j]) && is_idat(cs[l]);
            assert(false);
        }
    }
    if let Some(p) = plte_pos {
        match idat_pos {
            None => {
                return Err(PngError::PlteWithoutIdat);
            },
            Some(q) => {
                if !(p < q) {
                    return Err(PngError::PlteAfterIdat);
                }
            },
        }
    }
    match ihdr_pos {
        Some(0) => {},
        _ => {
            return Err(PngError::IhdrNotFirst);
        },
    }
    let last = chunks.len() - 1;
    match iend_pos {
        Some(p) => {
            if p != last {
                return Err(PngError::IendNotLast);
            }
        },
        None => {
            return Err(PngError::IendNotLast);
        },
    }
    Ok(())
}

/// Only ASCII letters may appear in a chunk type.
pub open spec fn is_letter(c: u8) -> bool {
    (0x41 <= c <= 0x5A) || (0x61 <= c <= 0x7A)
}

/// Checks that every byte of the chunk type is an ASCII letter.
pub fn try_error_checking(chunk: Chunk<'_>) -> (r: Result<(), PngError>)
    ensures
        r is Ok <==> forall|i: int| 0 <= i < 4 ==> is_letter(#[trigger] chunk.chunk_type@[i]),
        r is Err ==> r == Err::<(), PngError>(PngError::InvalidChunkTypeByte),
{
    let chunk_type = chunk.chunk_type;
    let mut i: usize = 0;
    while i < 4
        invariant
            i <= 4,
            chunk_type@ == chunk.chunk_type@,
            forall|j: int| 0 <= j < i ==> is_letter(#[trigger] chunk_type@[j]),
        decreases 4 - i,
    {
        let c = chunk_type[i];
        if !((0x41 <= c && c <= 0x5A) || (0x61 <= c && c <= 0x7A)) {
            return Err(PngError::InvalidChunkTypeByte);
        }
        i += 1;
    }
    Ok(())
}

/// Splits bytes that consist of whole chunks. `try_read_chunk` is the form that reports a
/// truncated chunk.
pub fn read_chunk<'a>(buf: &'a [u8]) -> (chunks: Vec<Chunk<'a>>)
    requires
        spec_read_chunks(buf@, 0) is Some,
    ensures
        spec_read_chunks(buf@, 0) == Some(chunk_views(chunks@)),
{
    try_read_chunk(buf).unwrap()
}

/// Accepts a chunk sequence in which each critical chunk type occurs as often as it must.
/// `try_check_chunk_count` is the form that reports a wrong count.
pub fn check_chunk_count(chunks: &Vec<Chunk>)
    requires
        spec_check_chunk_count(chunk_views(chunks@)) is Ok,
{
    try_check_chunk_count(chunks).unwrap()
}

/// Accepts a chunk sequence whose critical chunks are in order. `try_check_chunk_ordering` is
/// the form that reports a misplaced chunk.
pub fn check_chunk_ordering(chunks: &Vec<Chunk>)
    requires
        spec_check_chunk_ordering(chunk_views(chunks@)) is Ok,
{
    try_check_chunk_ordering(chunks).unwrap()
}

/// Accepts a chunk whose type consists of ASCII letters. `try_error_checking` is the form that
/// reports another byte.
pub fn error_checking(chunk: Chunk<'_>)
    requires
        forall|i: int| 0 <= i < 4 ==> is_letter(#[trigger] chunk.chunk_type@[i]),
{
    try_error_checking(chunk).unwrap()
}

} // verus!
