//! Little-endian views of the machine integers stored in the ELF image, and
//! in-place stores of 64-bit words (used when applying relocations).

use vstd::prelude::*;

verus! {

/// Byte `k` of the little-endian encoding of `v`.
pub open spec fn u64_byte(v: u64, k: int) -> u8 {
    (v >> ((8 * k) as u64)) as u8
}

/// The 16-bit little-endian integer stored at `off`.
pub open spec fn le16_at(s: Seq<u8>, off: int) -> u16 {
    (s[off] as u16) | ((s[off + 1] as u16) << 8u16)
}

/// The 32-bit little-endian integer stored at `off`.
pub open spec fn le32_at(s: Seq<u8>, off: int) -> u32 {
    (s[off] as u32) | ((s[off + 1] as u32) << 8u32) | ((s[off + 2] as u32) << 16u32)
        | ((s[off + 3] as u32) << 24u32)
}

/// The 64-bit little-endian integer stored at `off`.
pub open spec fn le64_at(s: Seq<u8>, off: int) -> u64 {
    (s[off] as u64) | ((s[off + 1] as u64) << 8u64) | ((s[off + 2] as u64) << 16u64)
        | ((s[off + 3] as u64) << 24u64) | ((s[off + 4] as u64) << 32u64)
        | ((s[off + 5] as u64) << 40u64) | ((s[off + 6] as u64) << 48u64)
        | ((s[off + 7] as u64) << 56u64)
}

/// `s` with the little-endian encoding of `v` stored at `off`.
pub open spec fn store64(s: Seq<u8>, off: int, v: u64) -> Seq<u8> {
    Seq::new(s.len(), |j: int| if off <= j < off + 8 { u64_byte(v, j - off) } else { s[j] })
}

pub fn read_u16(img: &Vec<u8>, off: usize) -> (r: u16)
    requires
        off + 2 <= img.len(),
    ensures
        r == le16_at(img@, off as int),
{
    (img[off] as u16) | ((img[off + 1] as u16) << 8u16)
}

pub fn read_u32(img: &Vec<u8>, off: usize) -> (r: u32)
    requires
        off + 4 <= img.len(),
    ensures
        r == le32_at(img@, off as int),
{
    (img[off] as u32) | ((img[off + 1] as u32) << 8u32) | ((img[off + 2] as u32) << 16u32)
        | ((img[off + 3] as u32) << 24u32)
}

pub fn read_u64(img: &Vec<u8>, off: usize) -> (r: u64)
    requires
        off + 8 <= img.len(),
    ensures
        r == le64_at(img@, off as int),
{
    (img[off] as u64) | ((img[off + 1] as u64) << 8u64) | ((img[off + 2] as u64) << 16u64)
        | ((img[off + 3] as u64) << 24u64) | ((img[off + 4] as u64) << 32u64)
        | ((img[off + 5] as u64) << 40u64) | ((img[off + 6] as u64) << 48u64)
        | ((img[off + 7] as u64) << 56u64)
}

/// Store `v` little-endian at `img[off .. off + 8]`.
pub fn write_u64(img: &mut Vec<u8>, off: usize, v: u64)
    requires
        off + 8 <= old(img).len(),
    ensures
        final(img)@ == store64(old(img)@, off as int, v),
{
    img[off] = #[verifier::truncate] ((v >> 0u64) as u8);
    img[off + 1] = #[verifier::truncate] ((v >> 8u64) as u8);
    img[off + 2] = #[verifier::truncate] ((v >> 16u64) as u8);
    img[off + 3] = #[verifier::truncate] ((v >> 24u64) as u8);
    img[off + 4] = #[verifier::truncate] ((v >> 32u64) as u8);
    img[off + 5] = #[verifier::truncate] ((v >> 40u64) as u8);
    img[off + 6] = #[verifier::truncate] ((v >> 48u64) as u8);
    img[off + 7] = #[verifier::truncate] ((v >> 56u64) as u8);
    proof {
        assert(img@ =~= store64(old(img)@, off as int, v));
    }
}

/// Reading back a word that was just stored yields the stored value.
pub proof fn lemma_store64_read_back(s: Seq<u8>, off: int, v: u64)
    requires
        0 <= off,
        off + 8 <= s.len(),
    ensures
        le64_at(store64(s, off, v), off) == v,
{
    let s2 = store64(s, off, v);
    assert(s2[off] == u64_byte(v, 0));
    assert(s2[off + 1] == u64_byte(v, 1));
    assert(s2[off + 2] == u64_byte(v, 2));
    assert(s2[off + 3] == u64_byte(v, 3));
    assert(s2[off + 4] == u64_byte(v, 4));
    assert(s2[off + 5] == u64_byte(v, 5));
    assert(s2[off + 6] == u64_byte(v, 6));
    assert(s2[off + 7] == u64_byte(v, 7));
    assert(u64_byte(v, 0) == (v >> 0u64) as u8);
    assert((((v >> 0u64) as u8) as u64) | ((((v >> 8u64) as u8) as u64) << 8u64)
        | ((((v >> 16u64) as u8) as u64) << 16u64) | ((((v >> 24u64) as u8) as u64) << 24u64)
        | ((((v >> 32u64) as u8) as u64) << 32u64) | ((((v >> 40u64) as u8) as u64) << 40u64)
        | ((((v >> 48u64) as u8) as u64) << 48u64) | ((((v >> 56u64) as u8) as u64) << 56u64)
        == v) by (bit_vector);
}

} // verus!
