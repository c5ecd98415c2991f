//! Little-endian integers in byte sequences.
use vstd::prelude::*;

verus! {

/// The little-endian `u16` at `at`.
pub open spec fn spec_u16_le(s: Seq<u8>, at: int) -> u16 {
    (s[at] as int + 256 * s[at + 1] as int) as u16
}

/// The little-endian `u32` at `at`.
pub open spec fn spec_u32_le(s: Seq<u8>, at: int) -> u32 {
    (s[at] as int + 256 * s[at + 1] as int + 65536 * s[at + 2] as int + 16777216 * s[at
        + 3] as int) as u32
}

/// Reads the little-endian `u16` at `at`.
pub fn read_u16_le(s: &[u8], at: usize) -> (r: u16)
    requires
        at + 2 <= s@.len(),
    ensures
        r == spec_u16_le(s@, at as int),
        r as int == s@[at as int] as int + 256 * s@[at + 1] as int,
{
    s[at] as u16 + 256 * (s[at + 1] as u16)
}

/// Reads the little-endian `u32` at `at`.
pub fn read_u32_le(s: &[u8], at: usize) -> (r: u32)
    requires
        at + 4 <= s@.len(),
    ensures
        r == spec_u32_le(s@, at as int),
        r as int == s@[at as int] as int + 256 * s@[at + 1] as int + 65536 * s@[at + 2] as int
            + 16777216 * s@[at + 3] as int,
{
    s[at] as u32 + 256 * (s[at + 1] as u32) + 65536 * (s[at + 2] as u32) + 16777216 * (s[at
        + 3] as u32)
}

/// The four little-endian bytes of `x`.
pub open spec fn spec_u32_to_le(x: u32) -> Seq<u8> {
    seq![(x % 256) as u8, ((x / 256) % 256) as u8, ((x / 65536) % 256) as u8, (x / 16777216) as u8]
}

/// Reading back the bytes of `x` gives `x`.
pub proof fn lemma_u32_le_roundtrip(x: u32, rest: Seq<u8>)
    ensures
        spec_u32_le(spec_u32_to_le(x) + rest, 0) == x,
{
    let s = spec_u32_to_le(x) + rest;
    assert(s[0] == (x % 256) as u8);
    assert(s[1] == ((x / 256) % 256) as u8);
    assert(s[2] == ((x / 65536) % 256) as u8);
    assert(s[3] == (x / 16777216) as u8);
    assert(x == x % 256 + 256 * ((x / 256) % 256) + 65536 * ((x / 65536) % 256) + 16777216 * (x
        / 16777216)) by (nonlinear_arith);
}

} // verus!
