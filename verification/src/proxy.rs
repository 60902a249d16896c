//! The H.264 elementary stream of a recording, as the proxy remux hands it to
//! a stream-copying muxer: the RGB payload of each frame block in order,
//! then whatever lies between the last block and the frame index.
use vstd::prelude::*;
use crate::byte_order::{le16, le32, le64, read_le16, read_le32, read_le64};
use crate::format::{has_magic_prefix, magic_prefix, FOOTER_MAGIC, FRAME_MAGIC};
use crate::text::{decimal, push_decimal, text};

verus! {

/// Why a recording cannot be remuxed.
#[derive(Clone, Copy, PartialEq, Eq, Structural, Debug)]
pub enum ProxyError {
    /// The header does not start with the `.egorec` v2 magic.
    NotEgorecV2,
    /// The RGB stream is not H.264; holds the header's codec id.
    UnsupportedCodec(u8),
    /// The footer marker is missing.
    MissingFooter,
    /// A frame block does not start with the frame marker; holds the sum of
    /// the declared sizes of the blocks before it, from the end of the header.
    BadFrameMagic(u64),
    /// A read ran past the end of the recording.
    Truncated,
}

/// How a walk over the declared frame blocks ended.
pub enum RemuxEnd {
    Done,
    Truncated,
    BadMagic,
}

/// Bytes one IMU sample takes in a frame block.
pub open spec fn imu_sample_bytes() -> int {
    32
}

/// Walks `count` frame blocks from `pos` the way a sequential reader does
/// that reads each block header and RGB payload and skips the depth data and
/// IMU samples: the (start, length) of each RGB payload read, how the walk
/// ended, and `block_end` plus the declared sizes of the blocks read.
pub open spec fn remux_walk(d: Seq<u8>, pos: int, block_end: int, count: nat) -> (Seq<(int, int)>, RemuxEnd, int)
    decreases count,
{
    if count == 0 {
        (Seq::empty(), RemuxEnd::Done, block_end)
    } else if pos + 4 > d.len() {
        (Seq::empty(), RemuxEnd::Truncated, block_end)
    } else if le32(d, pos) != FRAME_MAGIC {
        (Seq::empty(), RemuxEnd::BadMagic, block_end)
    } else if pos + 36 > d.len() {
        (Seq::empty(), RemuxEnd::Truncated, block_end)
    } else {
        let rgb = le32(d, pos + 24);
        if pos + 36 + rgb > d.len() {
            (Seq::empty(), RemuxEnd::Truncated, block_end)
        } else {
            let next = pos + 36 + rgb + le32(d, pos + 28) + le16(d, pos + 32) * imu_sample_bytes();
            let rest = remux_walk(d, next, block_end + le32(d, pos + 4), (count - 1) as nat);
            (seq![(pos + 36, rgb)] + rest.0, rest.1, rest.2)
        }
    }
}

/// The bytes of `d` covered by `spans`, one after the other.
pub open spec fn span_bytes(d: Seq<u8>, spans: Seq<(int, int)>) -> Seq<u8>
    decreases spans.len(),
{
    if spans.len() == 0 {
        Seq::empty()
    } else {
        let last = spans.last();
        span_bytes(d, spans.drop_last()) + d.subrange(last.0, last.0 + last.1)
    }
}

/// The elementary stream of a recording, or why there is none: the header
/// is checked for the v2 magic and H.264, the footer for its marker; the
/// footer's frame count of blocks is walked from the end of the header; and
/// the bytes from the end of the last declared block up to the index follow
/// the payloads.
pub open spec fn proxy_stream_spec(d: Seq<u8>) -> Result<Seq<u8>, ProxyError> {
    if d.len() < 472 {
        Err(ProxyError::Truncated)
    } else if d.subrange(0, 6) != magic_prefix() || d[6] != 2 {
        Err(ProxyError::NotEgorecV2)
    } else if d[340] != 2 {
        Err(ProxyError::UnsupportedCodec(d[340]))
    } else if le32(d, d.len() - 4) != FOOTER_MAGIC {
        Err(ProxyError::MissingFooter)
    } else {
        let w = remux_walk(d, 472, 472, le64(d, d.len() - 20) as nat);
        let index_offset = le64(d, d.len() - 32);
        match w.1 {
            RemuxEnd::BadMagic => Err(ProxyError::BadFrameMagic(w.2 as u64)),
            RemuxEnd::Truncated => Err(ProxyError::Truncated),
            RemuxEnd::Done => if index_offset <= w.2 {
                Ok(span_bytes(d, w.0))
            } else if index_offset > d.len() {
                Err(ProxyError::Truncated)
            } else {
                Ok(span_bytes(d, w.0) + d.subrange(w.2, index_offset))
            },
        }
    }
}

/// The header and footer checks of the remux pass, so its blocks are walked.
pub open spec fn walks_blocks(d: Seq<u8>) -> bool {
    &&& d.len() >= 472
    &&& d.subrange(0, 6) == magic_prefix()
    &&& d[6] == 2
    &&& d[340] == 2
    &&& le32(d, d.len() - 4) == FOOTER_MAGIC
}

/// The walk of the remux over the footer's frame count of blocks.
pub open spec fn remux_of(d: Seq<u8>) -> (Seq<(int, int)>, RemuxEnd, int) {
    remux_walk(d, 472, 472, le64(d, d.len() - 20) as nat)
}

/// The recordings the remux takes: held in memory (below 2^48 bytes); the
/// declared sizes of the blocks it walks add up within 64 bits (the sum
/// overflows otherwise); and the data between the last block and the
/// index, when it is read, holds at most `isize::MAX` bytes (its buffer
/// cannot be allocated otherwise).
pub open spec fn proxy_fits(d: Seq<u8>) -> bool {
    &&& d.len() < 0x1_0000_0000_0000
    &&& walks_blocks(d) ==> {
        let w = remux_of(d);
        let io = le64(d, d.len() - 32);
        &&& w.2 <= u64::MAX
        &&& (w.1 is Done && io > w.2) ==> io - w.2 <= 0x7FFF_FFFF_FFFF_FFFF
    }
}

proof fn lemma_walk_end_ge(d: Seq<u8>, pos: int, block_end: int, count: nat)
    ensures
        remux_walk(d, pos, block_end, count).2 >= block_end,
    decreases count,
{
    if count > 0 && pos + 36 <= d.len() && le32(d, pos) == FRAME_MAGIC && pos + 36 + le32(d, pos + 24) <= d.len() {
        let next = pos + 36 + le32(d, pos + 24) + le32(d, pos + 28) + le16(d, pos + 32) * imu_sample_bytes();
        lemma_walk_end_ge(d, next, block_end + le32(d, pos + 4), (count - 1) as nat);
        assert(le32(d, pos + 4) >= 0) by {
            reveal(le32);
            reveal(le16);
        }
    }
}

/// The text a remux failure is reported with, for the recording at `path`.
pub open spec fn proxy_error_text(e: ProxyError, path: Seq<char>) -> Seq<char> {
    match e {
        ProxyError::NotEgorecV2 => path + ": not a valid .egorec v2 file"@,
        ProxyError::UnsupportedCodec(c) => path + ": rgb_codec="@ + decimal(c as nat)
            + " (need 2 for H.264 remux)"@,
        ProxyError::MissingFooter => path + ": missing footer \u{2014} file may be truncated"@,
        ProxyError::BadFrameMagic(o) => "bad frame magic at offset "@ + decimal(o as nat),
        ProxyError::Truncated => "failed to fill whole buffer"@,
    }
}

impl ProxyError {
    /// The text the failure is reported with, for the recording at `path`.
    pub fn message(&self, path: &str) -> (m: String)
        ensures
            m@ == proxy_error_text(*self, path@),
    {
        match self {
            ProxyError::NotEgorecV2 => {
                let mut m = text(path);
                m.append(": not a valid .egorec v2 file");
                m
            },
            ProxyError::UnsupportedCodec(c) => {
                let mut m = text(path);
                m.append(": rgb_codec=");
                push_decimal(&mut m, *c as u64);
                m.append(" (need 2 for H.264 remux)");
                m
            },
            ProxyError::MissingFooter => {
                let mut m = text(path);
                m.append(": missing footer \u{2014} file may be truncated");
                m
            },
            ProxyError::BadFrameMagic(o) => {
                let mut m = text("bad frame magic at offset ");
                push_decimal(&mut m, *o);
                m
            },
            ProxyError::Truncated => text("failed to fill whole buffer"),
        }
    }
}

fn push_range(out: &mut Vec<u8>, data: &[u8], start: usize, len: usize)
    requires
        start + len <= data@.len(),
    ensures
        final(out)@ == old(out)@ + data@.subrange(start as int, start + len),
{
    let mut i: usize = 0;
    while i < len
        invariant
            i <= len,
            start + len <= data.len(),
            out@ == old(out)@ + data@.subrange(start as int, start + i),
        decreases len - i,
    {
        out.push(data[start + i]);
        i += 1;
        assert(data@.subrange(start as int, start + i) =~= data@.subrange(start as int, start + i - 1)
            + seq![data@[start + i - 1]]);
    }
}

proof fn lemma_walk_step(d: Seq<u8>, pos: int, block_end: int, count: nat)
    requires
        count > 0,
        pos + 36 <= d.len(),
        le32(d, pos) == FRAME_MAGIC,
        pos + 36 + le32(d, pos + 24) <= d.len(),
    ensures
        remux_walk(d, pos, block_end, count) == ({
            let rest = remux_walk(d, pos + 36 + le32(d, pos + 24) + le32(d, pos + 28) + le16(d, pos + 32)
                * imu_sample_bytes(), block_end + le32(d, pos + 4), (count - 1) as nat);
            (seq![(pos + 36, le32(d, pos + 24))] + rest.0, rest.1, rest.2)
        }),
{
}

/// Extracts the H.264 elementary stream of a recording for a stream-copying
/// remux.
#[verifier::rlimit(40)]
pub fn proxy_stream(data: &[u8]) -> (r: Result<Vec<u8>, ProxyError>)
    requires
        proxy_fits(data@),
    ensures
        match r {
            Ok(v) => proxy_stream_spec(data@) == Ok::<Seq<u8>, ProxyError>(v@),
            Err(e) => proxy_stream_spec(data@) == Err::<Seq<u8>, ProxyError>(e),
        },
{
    let ghost d = data@;
    if data.len() < 472 {
        return Err(ProxyError::Truncated);
    }
    let good_magic = has_magic_prefix(data);
    if !good_magic || data[6] != 2 {
        return Err(ProxyError::NotEgorecV2);
    }
    if data[340] != 2 {
        return Err(ProxyError::UnsupportedCodec(data[340]));
    }
    let len = data.len();
    if read_le32(data, len - 4) != FOOTER_MAGIC {
        return Err(ProxyError::MissingFooter);
    }
    let index_offset = read_le64(data, len - 32);
    let total_frames = read_le64(data, len - 20);
    let len64 = len as u64;
    let mut out: Vec<u8> = Vec::new();
    let mut pos: u64 = 472;
    let mut block_end: u64 = 472;
    let mut i: u64 = 0;
    let ghost mut spans: Seq<(int, int)> = Seq::empty();
    assert(spans + remux_walk(d, 472, 472, total_frames as nat).0 =~= remux_walk(d, 472, 472,
        total_frames as nat).0);
    while i < total_frames
        invariant
            d == data@,
            len == d.len(),
            len64 == len,
            472 <= len < 0x1_0000_0000_0000,
            proxy_fits(d),
            walks_blocks(d),
            d.subrange(0, 6) == magic_prefix(),
            d[6] == 2,
            d[340] == 2,
            le32(d, d.len() - 4) == FOOTER_MAGIC,
            total_frames == le64(d, d.len() - 20),
            index_offset == le64(d, d.len() - 32),
            i <= total_frames,
            pos <= len + 0x1_0000_0000 + 0x1_0000_0000 + 0x20_0000,
            472 <= block_end,
            out@ == span_bytes(d, spans),
            remux_walk(d, 472, 472, total_frames as nat) == ({
                let w = remux_walk(d, pos as int, block_end as int, (total_frames - i) as nat);
                (spans + w.0, w.1, w.2)
            }),
        decreases total_frames - i,
    {
        if pos + 4 > len64 {
            return Err(ProxyError::Truncated);
        }
        let p = pos as usize;
        if read_le32(data, p) != FRAME_MAGIC {
            return Err(ProxyError::BadFrameMagic(block_end));
        }
        if pos + 36 > len64 {
            return Err(ProxyError::Truncated);
        }
        let rgb = read_le32(data, p + 24);
        if pos + 36 + rgb as u64 > len64 {
            return Err(ProxyError::Truncated);
        }
        let block_size = read_le32(data, p + 4);
        let depth = read_le32(data, p + 28);
        let imu = read_le16(data, p + 32);
        proof {
            lemma_walk_step(d, pos as int, block_end as int, (total_frames - i) as nat);
            lemma_walk_end_ge(d, pos + 36 + rgb + depth + imu * 32, block_end + block_size,
                (total_frames - i - 1) as nat);
            assert(spans.push((pos + 36, rgb as int)).drop_last() =~= spans);
            assert(span_bytes(d, spans.push((pos + 36, rgb as int))) == span_bytes(d, spans) + d.subrange(
                pos + 36,
                pos + 36 + rgb,
            ));
            assert((spans + seq![(pos + 36, rgb as int)]) =~= spans.push((pos + 36, rgb as int)));
        }
        push_range(&mut out, data, p + 36, rgb as usize);
        let ghost old_spans = spans;
        proof {
            spans = spans.push((pos + 36, rgb as int));
            let rest = remux_walk(d, pos + 36 + rgb + depth + imu * 32, block_end + block_size,
                (total_frames - i - 1) as nat);
            assert(old_spans + (seq![(pos + 36, rgb as int)] + rest.0) =~= spans + rest.0);
        }
        pos = pos + 36 + rgb as u64 + depth as u64 + imu as u64 * 32;
        block_end = block_end + block_size as u64;
        i = i + 1;
    }
    if index_offset > block_end {
        if index_offset > len64 {
            return Err(ProxyError::Truncated);
        }
        push_range(&mut out, data, block_end as usize, (index_offset - block_end) as usize);
    }
    Ok(out)
}


/// Whether the remux takes this recording (see `proxy_fits`), for a caller
/// to check before calling `proxy_stream`.
pub fn proxy_input_fits(data: &[u8]) -> (b: bool)
    requires
        data@.len() < 0x1_0000_0000_0000,
    ensures
        b == proxy_fits(data@),
{
    let ghost d = data@;
    if data.len() < 472 || !has_magic_prefix(data) || data[6] != 2 || data[340] != 2 {
        return true;
    }
    let len = data.len();
    if read_le32(data, len - 4) != FOOTER_MAGIC {
        return true;
    }
    let index_offset = read_le64(data, len - 32);
    let total_frames = read_le64(data, len - 20);
    let len64 = len as u64;
    let mut pos: u64 = 472;
    let mut block_end: u64 = 472;
    let mut i: u64 = 0;
    while i < total_frames
        invariant
            d == data@,
            len == d.len(),
            len64 == len,
            472 <= len < 0x1_0000_0000_0000,
            walks_blocks(d),
            total_frames == le64(d, d.len() - 20),
            index_offset == le64(d, d.len() - 32),
            i <= total_frames,
            pos <= len + 0x1_0000_0000 + 0x1_0000_0000 + 0x20_0000,
            remux_of(d).1 == remux_walk(d, pos as int, block_end as int, (total_frames - i) as nat).1,
            remux_of(d).2 == remux_walk(d, pos as int, block_end as int, (total_frames - i) as nat).2,
        decreases total_frames - i,
    {
        if pos + 4 > len64 {
            return true;
        }
        let p = pos as usize;
        if read_le32(data, p) != FRAME_MAGIC || pos + 36 > len64 {
            return true;
        }
        let rgb = read_le32(data, p + 24);
        if pos + 36 + rgb as u64 > len64 {
            return true;
        }
        let block_size = read_le32(data, p + 4);
        let depth = read_le32(data, p + 28);
        let imu = read_le16(data, p + 32);
        proof {
            lemma_walk_step(d, pos as int, block_end as int, (total_frames - i) as nat);
            lemma_walk_end_ge(d, pos + 36 + rgb + depth + imu * 32, block_end + block_size,
                (total_frames - i - 1) as nat);
        }
        if block_end > u64::MAX - block_size as u64 {
            return false;
        }
        pos = pos + 36 + rgb as u64 + depth as u64 + imu as u64 * 32;
        block_end = block_end + block_size as u64;
        i = i + 1;
    }
    !(index_offset > block_end && index_offset - block_end > 0x7FFF_FFFF_FFFF_FFFF)
}

} // verus!
