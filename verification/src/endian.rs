use vstd::prelude::*;

verus! {

/// The big-endian number in the four bytes from `at` (PNG's byte order).
pub open spec fn spec_be_u32(s: Seq<u8>, at: int) -> int {
    s[at] * 16777216 + s[at + 1] * 65536 + s[at + 2] * 256 + s[at + 3]
}

/// The big-endian number in the two bytes from `at`.
pub open spec fn spec_be_u16(s: Seq<u8>, at: int) -> int {
    s[at] * 256 + s[at + 1]
}

/// The four bytes of `x`, most significant first.
pub open spec fn be_bytes(x: u32) -> Seq<u8> {
    seq![(x / 16777216) as u8, (x / 65536 % 256) as u8, (x / 256 % 256) as u8, (x % 256) as u8]
}

/// Reading back the four bytes of `x` gives `x`.
pub proof fn lemma_be_bytes(x: u32)
    ensures
        be_bytes(x).len() == 4,
        spec_be_u32(be_bytes(x), 0) == x,
{
    let b = be_bytes(x);
    assert(b[0] == x / 16777216 && b[1] == x / 65536 % 256 && b[2] == x / 256 % 256 && b[3] == x
        % 256);
    assert((x / 16777216) * 16777216 + (x / 65536 % 256) * 65536 + (x / 256 % 256) * 256 + x % 256
        == x) by (nonlinear_arith)
        requires
            0 <= x < 0x1_0000_0000,
    ;
}

/// Reads the big-endian `u32` in the four bytes from `at`.
pub fn be_u32(buf: &[u8], at: usize) -> (r: u32)
    requires
        at + 4 <= buf@.len(),
    ensures
        r == spec_be_u32(buf@, at as int),
{
    (buf[at] as u32) * 16777216 + (buf[at + 1] as u32) * 65536 + (buf[at + 2] as u32) * 256 + (
    buf[at + 3] as u32)
}

/// Reads the big-endian `u16` in the two bytes from `at`.
pub fn be_u16(buf: &[u8], at: usize) -> (r: u16)
    requires
        at + 2 <= buf@.len(),
    ensures
        r == spec_be_u16(buf@, at as int),
{
    (buf[at] as u16) * 256 + (buf[at + 1] as u16)
}

} // verus!
