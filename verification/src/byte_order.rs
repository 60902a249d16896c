//! Little- and big-endian integer encodings used by the `.egorec`, MP4 and
//! TFRecord formats.
use vstd::prelude::*;

verus! {

/// Value of the two little-endian bytes of `b` at `pos`.
#[verifier::opaque]
pub open spec fn le16(b: Seq<u8>, pos: int) -> int {
    b[pos] + 256 * b[pos + 1]
}

/// Value of the four little-endian bytes of `b` at `pos`.
#[verifier::opaque]
pub open spec fn le32(b: Seq<u8>, pos: int) -> int {
    le16(b, pos) + 65536 * le16(b, pos + 2)
}

/// Value of the eight little-endian bytes of `b` at `pos`.
#[verifier::opaque]
pub open spec fn le64(b: Seq<u8>, pos: int) -> int {
    le32(b, pos) + 4294967296 * le32(b, pos + 4)
}

/// The two little-endian bytes of `x`.
#[verifier::opaque]
pub open spec fn le16_bytes(x: int) -> Seq<u8> {
    seq![(x % 256) as u8, ((x / 256) % 256) as u8]
}

/// The four little-endian bytes of `x`.
#[verifier::opaque]
pub open spec fn le32_bytes(x: int) -> Seq<u8> {
    le16_bytes(x % 65536) + le16_bytes(x / 65536)
}

/// The eight little-endian bytes of `x`.
#[verifier::opaque]
pub open spec fn le64_bytes(x: int) -> Seq<u8> {
    le32_bytes(x % 4294967296) + le32_bytes(x / 4294967296)
}

/// The two big-endian bytes of `x`.
pub open spec fn be16_bytes(x: int) -> Seq<u8> {
    seq![((x / 256) % 256) as u8, (x % 256) as u8]
}

/// The four big-endian bytes of `x`.
pub open spec fn be32_bytes(x: int) -> Seq<u8> {
    be16_bytes(x / 65536) + be16_bytes(x % 65536)
}

/// The eight big-endian bytes of `x`.
pub open spec fn be64_bytes(x: int) -> Seq<u8> {
    be32_bytes(x / 4294967296) + be32_bytes(x % 4294967296)
}

/// Value of the four big-endian bytes of `b` at `pos`.
pub open spec fn be32(b: Seq<u8>, pos: int) -> int {
    16777216 * b[pos] + 65536 * b[pos + 1] + 256 * b[pos + 2] + b[pos + 3]
}

pub proof fn lemma_le16_roundtrip(x: int)
    requires
        0 <= x < 65536,
    ensures
        le16(le16_bytes(x), 0) == x,
{
    reveal(le16);
    reveal(le16_bytes);
}

pub proof fn lemma_le32_roundtrip(x: int)
    requires
        0 <= x < 4294967296,
    ensures
        le32(le32_bytes(x), 0) == x,
{
    reveal(le32);
    reveal(le32_bytes);
    let b = le32_bytes(x);
    let lo = le16_bytes(x % 65536);
    let hi = le16_bytes(x / 65536);
    lemma_le16_roundtrip(x % 65536);
    lemma_le16_roundtrip(x / 65536);
    lemma_le16_bytes_len(x % 65536);
    lemma_le16_bytes_len(x / 65536);
    assert(b.subrange(0, 2) =~= lo);
    assert(b.subrange(2, 4) =~= hi);
    lemma_le_window(b, lo, 0, 0);
    lemma_le_window(b, hi, 2, 0);
}

pub proof fn lemma_le64_roundtrip(x: int)
    requires
        0 <= x < 18446744073709551616,
    ensures
        le64(le64_bytes(x), 0) == x,
{
    reveal(le64);
    reveal(le64_bytes);
    let b = le64_bytes(x);
    let lo = le32_bytes(x % 4294967296);
    let hi = le32_bytes(x / 4294967296);
    lemma_le32_roundtrip(x % 4294967296);
    lemma_le32_roundtrip(x / 4294967296);
    lemma_le32_bytes_len(x % 4294967296);
    lemma_le32_bytes_len(x / 4294967296);
    assert(b.subrange(0, 4) =~= lo);
    assert(b.subrange(4, 8) =~= hi);
    lemma_le_window(b, lo, 0, 0);
    lemma_le_window(b, hi, 4, 0);
}

/// Reads the little-endian `u16` at `pos`.
pub fn read_le16(b: &[u8], pos: usize) -> (r: u16)
    requires
        pos + 2 <= b.len(),
    ensures
        r == le16(b@, pos as int),
{
    reveal(le16);
    b[pos] as u16 + 256 * (b[pos + 1] as u16)
}

/// Reads the little-endian `u32` at `pos`.
pub fn read_le32(b: &[u8], pos: usize) -> (r: u32)
    requires
        pos + 4 <= b.len(),
    ensures
        r == le32(b@, pos as int),
{
    reveal(le32);
    let lo = read_le16(b, pos) as u32;
    let hi = read_le16(b, pos + 2) as u32;
    lo + 65536 * hi
}

/// Reads the little-endian `u64` at `pos`.
pub fn read_le64(b: &[u8], pos: usize) -> (r: u64)
    requires
        pos + 8 <= b.len(),
    ensures
        r == le64(b@, pos as int),
{
    reveal(le64);
    let lo = read_le32(b, pos) as u64;
    let hi = read_le32(b, pos + 4) as u64;
    lo + 4294967296 * hi
}

/// Reads the big-endian `u32` at `pos`.
pub fn read_be32(b: &[u8], pos: usize) -> (r: u32)
    requires
        pos + 4 <= b.len(),
    ensures
        r == be32(b@, pos as int),
{
    16777216 * (b[pos] as u32) + 65536 * (b[pos + 1] as u32) + 256 * (b[pos + 2] as u32) + b[pos + 3] as u32
}

/// Appends the little-endian bytes of `x`.
pub fn push_le16(out: &mut Vec<u8>, x: u16)
    ensures
        final(out)@ == old(out)@ + le16_bytes(x as int),
{
    reveal(le16_bytes);
    out.push((x % 256) as u8);
    out.push((x / 256) as u8);
}

/// Appends the little-endian bytes of `x`.
pub fn push_le32(out: &mut Vec<u8>, x: u32)
    ensures
        final(out)@ == old(out)@ + le32_bytes(x as int),
{
    reveal(le32_bytes);
    push_le16(out, (x % 65536) as u16);
    push_le16(out, (x / 65536) as u16);
}

/// Appends the little-endian bytes of `x`.
pub fn push_le64(out: &mut Vec<u8>, x: u64)
    ensures
        final(out)@ == old(out)@ + le64_bytes(x as int),
{
    reveal(le64_bytes);
    push_le32(out, (x % 4294967296) as u32);
    push_le32(out, (x / 4294967296) as u32);
}

/// Appends the big-endian bytes of `x`.
pub fn push_be16(out: &mut Vec<u8>, x: u16)
    ensures
        final(out)@ == old(out)@ + be16_bytes(x as int),
{
    out.push((x / 256) as u8);
    out.push((x % 256) as u8);
}

/// Appends the big-endian bytes of `x`.
pub fn push_be32(out: &mut Vec<u8>, x: u32)
    ensures
        final(out)@ == old(out)@ + be32_bytes(x as int),
{
    push_be16(out, (x / 65536) as u16);
    push_be16(out, (x % 65536) as u16);
}

/// Appends the big-endian bytes of `x`.
pub fn push_be64(out: &mut Vec<u8>, x: u64)
    ensures
        final(out)@ == old(out)@ + be64_bytes(x as int),
{
    push_be32(out, (x / 4294967296) as u32);
    push_be32(out, (x % 4294967296) as u32);
}

/// Appends all of `data`.
pub fn push_all(out: &mut Vec<u8>, data: &[u8])
    ensures
        final(out)@ == old(out)@ + data@,
{
    let mut i: usize = 0;
    while i < data.len()
        invariant
            i <= data@.len(),
            out@ == old(out)@ + data@.subrange(0, i as int),
        decreases data@.len() - i,
    {
        out.push(data[i]);
        i += 1;
        assert(data@.subrange(0, i as int) =~= data@.subrange(0, i - 1) + seq![data@[i - 1]]);
    }
    assert(data@.subrange(0, i as int) =~= data@);
}


pub proof fn lemma_be32_roundtrip(x: int)
    requires
        0 <= x < 4294967296,
    ensures
        be32(be32_bytes(x), 0) == x,
        be32_bytes(x).len() == 4,
{
    let b = be32_bytes(x);
    assert(b[0] == ((x / 65536) / 256) % 256);
    assert(b[1] == (x / 65536) % 256);
    assert(b[2] == ((x % 65536) / 256) % 256);
    assert(b[3] == (x % 65536) % 256);
}


/// Reading a little-endian word depends only on the bytes it spans.
pub proof fn lemma_le_window(d: Seq<u8>, w: Seq<u8>, p: int, k: int)
    requires
        0 <= p,
        p + w.len() <= d.len(),
        d.subrange(p, p + w.len()) == w,
        0 <= k,
    ensures
        k + 2 <= w.len() ==> le16(d, p + k) == le16(w, k),
        k + 4 <= w.len() ==> le32(d, p + k) == le32(w, k),
        k + 8 <= w.len() ==> le64(d, p + k) == le64(w, k),
{
    reveal(le16);
    reveal(le32);
    reveal(le64);
    assert forall|j: int| 0 <= j < w.len() implies d[p + j] == w[j] by {
        assert(d.subrange(p, p + w.len())[j] == d[p + j]);
    }
    if k + 8 <= w.len() {
        assert(d[p + k + 4] == w[k + 4]);
        assert(d[p + k + 5] == w[k + 5]);
        assert(d[p + k + 6] == w[k + 6]);
        assert(d[p + k + 7] == w[k + 7]);
    }
    if k + 4 <= w.len() {
        assert(d[p + k + 2] == w[k + 2]);
        assert(d[p + k + 3] == w[k + 3]);
    }
    if k + 2 <= w.len() {
        assert(d[p + k] == w[k]);
        assert(d[p + k + 1] == w[k + 1]);
    }
}


pub broadcast proof fn lemma_le16_bytes_len(x: int)
    ensures
        #[trigger] le16_bytes(x).len() == 2,
{
    reveal(le16_bytes);
}

pub broadcast proof fn lemma_le32_bytes_len(x: int)
    ensures
        #[trigger] le32_bytes(x).len() == 4,
{
    reveal(le32_bytes);
    reveal(le16_bytes);
}

pub broadcast proof fn lemma_le64_bytes_len(x: int)
    ensures
        #[trigger] le64_bytes(x).len() == 8,
{
    reveal(le64_bytes);
    reveal(le32_bytes);
    reveal(le16_bytes);
}

pub broadcast group group_le_bytes_len {
    lemma_le16_bytes_len,
    lemma_le32_bytes_len,
    lemma_le64_bytes_len,
}

} // verus!
