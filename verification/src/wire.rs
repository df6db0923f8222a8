//! Big-endian integers and byte ranges.

use vstd::prelude::*;
use vstd::slice::{slice_subrange, slice_to_vec};

verus! {

/// Two bytes, most significant first.
pub open spec fn be16(x: u16) -> Seq<u8> {
    seq![(x / 256) as u8, (x % 256) as u8]
}

/// Four bytes, most significant first.
pub open spec fn be32(x: u32) -> Seq<u8> {
    seq![(x / 0x100_0000) as u8, (x / 0x1_0000 % 256) as u8, (x / 256 % 256) as u8, (x % 256) as u8]
}

/// Eight bytes, most significant first.
pub open spec fn be64(x: u64) -> Seq<u8> {
    be32((x / 0x1_0000_0000) as u32) + be32((x % 0x1_0000_0000) as u32)
}

/// The big-endian number in bytes `i` and `i + 1`.
pub open spec fn u16_at(b: Seq<u8>, i: int) -> int {
    b[i] * 256 + b[i + 1]
}

/// The big-endian number in bytes `i` to `i + 3`.
pub open spec fn u32_at(b: Seq<u8>, i: int) -> int {
    b[i] * 0x100_0000 + b[i + 1] * 0x1_0000 + b[i + 2] * 256 + b[i + 3]
}

/// The big-endian number in bytes `i` to `i + 7`.
pub open spec fn u64_at(b: Seq<u8>, i: int) -> int {
    u32_at(b, i) * 0x1_0000_0000 + u32_at(b, i + 4)
}

/// What is written by `be16` is read back by `u16_at`.
pub proof fn lemma_be16_at(x: u16, b: Seq<u8>, i: int)
    requires
        0 <= i,
        i + 2 <= b.len(),
        b.subrange(i, i + 2) == be16(x),
    ensures
        u16_at(b, i) == x,
{
    let s = b.subrange(i, i + 2);
    assert(s[0] == b[i] && s[1] == b[i + 1]);
}

/// What is written by `be32` is read back by `u32_at`.
pub proof fn lemma_be32_at(x: u32, b: Seq<u8>, i: int)
    requires
        0 <= i,
        i + 4 <= b.len(),
        b.subrange(i, i + 4) == be32(x),
    ensures
        u32_at(b, i) == x,
{
    let s = b.subrange(i, i + 4);
    assert(s[0] == b[i] && s[1] == b[i + 1] && s[2] == b[i + 2] && s[3] == b[i + 3]);
}

/// What is written by `be64` is read back by `u64_at`.
pub proof fn lemma_be64_at(x: u64, b: Seq<u8>, i: int)
    requires
        0 <= i,
        i + 8 <= b.len(),
        b.subrange(i, i + 8) == be64(x),
    ensures
        u64_at(b, i) == x,
{
    let s = b.subrange(i, i + 8);
    assert(b.subrange(i, i + 4) =~= s.subrange(0, 4));
    assert(b.subrange(i + 4, i + 8) =~= s.subrange(4, 8));
    assert(s.subrange(0, 4) =~= be32((x / 0x1_0000_0000) as u32));
    assert(s.subrange(4, 8) =~= be32((x % 0x1_0000_0000) as u32));
    lemma_be32_at((x / 0x1_0000_0000) as u32, b, i);
    lemma_be32_at((x % 0x1_0000_0000) as u32, b, i + 4);
}

/// Appends a byte slice.
pub fn push_bytes(out: &mut Vec<u8>, bytes: &[u8])
    ensures
        final(out)@ == old(out)@ + bytes@,
{
    out.extend_from_slice(bytes);
    assert(out@ =~= old(out)@ + bytes@);
}

/// Appends `x`, most significant byte first.
pub fn push_u16(out: &mut Vec<u8>, x: u16)
    ensures
        final(out)@ == old(out)@ + be16(x),
{
    out.push((x / 256) as u8);
    out.push((x % 256) as u8);
    assert(out@ =~= old(out)@ + be16(x));
}

/// Appends `x`, most significant byte first.
pub fn push_u32(out: &mut Vec<u8>, x: u32)
    ensures
        final(out)@ == old(out)@ + be32(x),
{
    out.push((x / 0x100_0000) as u8);
    out.push((x / 0x1_0000 % 256) as u8);
    out.push((x / 256 % 256) as u8);
    out.push((x % 256) as u8);
    assert(out@ =~= old(out)@ + be32(x));
}

/// Appends `x`, most significant byte first.
pub fn push_u64(out: &mut Vec<u8>, x: u64)
    ensures
        final(out)@ == old(out)@ + be64(x),
{
    push_u32(out, (x / 0x1_0000_0000) as u32);
    push_u32(out, (x % 0x1_0000_0000) as u32);
    assert(out@ =~= old(out)@ + be64(x));
}

/// Reads two bytes at `i` as a big-endian number.
pub fn read_u16(b: &[u8], i: usize) -> (r: u16)
    requires
        i + 2 <= b@.len(),
    ensures
        r == u16_at(b@, i as int),
{
    (b[i] as u16) * 256 + (b[i + 1] as u16)
}

/// Reads four bytes at `i` as a big-endian number.
pub fn read_u32(b: &[u8], i: usize) -> (r: u32)
    requires
        i + 4 <= b@.len(),
    ensures
        r == u32_at(b@, i as int),
{
    (b[i] as u32) * 0x100_0000 + (b[i + 1] as u32) * 0x1_0000 + (b[i + 2] as u32) * 256 + (b[i + 3] as u32)
}

/// Reads eight bytes at `i` as a big-endian number.
pub fn read_u64(b: &[u8], i: usize) -> (r: u64)
    requires
        i + 8 <= b@.len(),
    ensures
        r == u64_at(b@, i as int),
{
    let _n: usize = b.len();
    let hi: u32 = read_u32(b, i);
    let lo: u32 = read_u32(b, i + 4);
    (hi as u64) * 0x1_0000_0000 + (lo as u64)
}

/// A copy of the bytes from `i` up to `j`.
pub fn copy_range(b: &[u8], i: usize, j: usize) -> (r: Vec<u8>)
    requires
        i <= j <= b@.len(),
    ensures
        r@ == b@.subrange(i as int, j as int),
{
    slice_to_vec(slice_subrange(b, i, j))
}

/// Sixteen bytes starting at `i`.
pub fn copy_16(b: &[u8], i: usize) -> (r: [u8; 16])
    requires
        i + 16 <= b@.len(),
    ensures
        r@ == b@.subrange(i as int, i + 16),
{
    let r: [u8; 16] = [
        b[i], b[i + 1], b[i + 2], b[i + 3], b[i + 4], b[i + 5], b[i + 6], b[i + 7],
        b[i + 8], b[i + 9], b[i + 10], b[i + 11], b[i + 12], b[i + 13], b[i + 14], b[i + 15],
    ];
    assert(r@ =~= b@.subrange(i as int, i + 16));
    r
}

/// Thirty-two bytes starting at `i`.
pub fn copy_32(b: &[u8], i: usize) -> (r: [u8; 32])
    requires
        i + 32 <= b@.len(),
    ensures
        r@ == b@.subrange(i as int, i + 32),
{
    let _n: usize = b.len();
    let mut r: [u8; 32] = [0u8; 32];
    let mut k: usize = 0;
    while k < 32
        invariant
            k <= 32,
            i + 32 <= b.len(),
            forall|j: int| 0 <= j < k ==> r@[j] == b@[i + j],
        decreases 32 - k,
    {
        r[k] = b[i + k];
        k = k + 1;
    }
    assert(r@ =~= b@.subrange(i as int, i + 32));
    r
}

/// True where both slices hold the same bytes.
pub fn same_bytes(a: &[u8], b: &[u8]) -> (r: bool)
    ensures
        r == (a@ == b@),
{
    if a.len() != b.len() {
        return false;
    }
    let mut i: usize = 0;
    while i < a.len()
        invariant
            a@.len() == b@.len(),
            i <= a@.len(),
            forall|j: int| 0 <= j < i ==> a@[j] == b@[j],
        decreases a@.len() - i,
    {
        if a[i] != b[i] {
            return false;
        }
        i = i + 1;
    }
    assert(a@ =~= b@);
    true
}

/// True where the bytes of `p` stand at position `i` of `b`.
pub open spec fn found_at(b: Seq<u8>, p: Seq<u8>, i: int) -> bool {
    0 <= i && i + p.len() <= b.len() && b.subrange(i, i + p.len()) == p
}

/// The first position at which `p` stands in `b`.
pub fn find_bytes(b: &[u8], p: &[u8]) -> (r: Option<usize>)
    ensures
        match r {
            Some(i) => found_at(b@, p@, i as int) && forall|j: int| 0 <= j < i ==> !found_at(b@, p@, j),
            None => forall|j: int| !found_at(b@, p@, j),
        },
{
    if p.len() > b.len() {
        return None;
    }
    let last: usize = b.len() - p.len();
    let mut i: usize = 0;
    while i <= last
        invariant
            last == b@.len() - p@.len(),
            i <= last + 1,
            last <= b@.len() <= usize::MAX,
            forall|j: int| 0 <= j < i ==> !found_at(b@, p@, j),
        decreases last + 1 - i,
    {
        if same_bytes(slice_subrange(b, i, i + p.len()), p) {
            return Some(i);
        }
        if i == usize::MAX {
            return None;
        }
        i = i + 1;
    }
    None
}

} // verus!
