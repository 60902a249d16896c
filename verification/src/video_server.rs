//! Decisions of the viewer's video server: HTTP `Range` parsing and the
//! streaming `.egorec` to MP4 conversion it serves from memory.
use vstd::prelude::*;
use crate::byte_order::{le32, le64};
use crate::convert::{copy_range, footer_pos, lemma_params_push, lemma_payload_len_push, params_match,
    params_of, sample_of, samples_of, track_of};
use crate::format::{FileFooter, FileHeader, FrameBlockHeader, IndexEntry};
use crate::h264_annex_b::{annex_b_payloads, avcc_bytes, extract_sps_pps, has_key_type, is_keyframe,
    lemma_avcc_len_bound, lemma_nals_match, nals_to_avcc, parse_annex_b, payload_types};
use crate::mp4_mux::{build_mp4, lemma_sum_sizes_le_payload_len, mp4_file, payload_len, sample_views,
    Mp4Sample, Mp4TrackConfig, SampleView, TrackParams};
use crate::text::text;

verus! {

// ---------------------------------------------------------------------------
// Range headers.

pub open spec fn is_digit(c: char) -> bool {
    '0' <= c <= '9'
}

/// Value of a run of decimal digits.
pub open spec fn digits_value(s: Seq<char>) -> nat
    decreases s.len(),
{
    if s.len() == 0 {
        0
    } else {
        digits_value(s.drop_last()) * 10 + (s.last() as nat - 48) as nat
    }
}

/// `s` without one leading `+`.
pub open spec fn unsigned_part(s: Seq<char>) -> Seq<char> {
    if s.len() > 0 && s[0] == '+' { s.drop_first() } else { s }
}

/// Every character of `s` is a decimal digit.
pub open spec fn all_digits(s: Seq<char>) -> bool {
    forall|i: int| 0 <= i < s.len() ==> is_digit(#[trigger] s[i])
}

/// How `u64::from_str` reads `s`: an optional `+`, then one or more decimal
/// digits whose value fits in 64 bits.
pub open spec fn parse_u64_spec(s: Seq<char>) -> Option<u64> {
    let ds = unsigned_part(s);
    if ds.len() > 0 && all_digits(ds) && digits_value(ds) <= u64::MAX {
        Some(digits_value(ds) as u64)
    } else {
        None
    }
}

/// Index of the first `-`, if any.
pub open spec fn first_dash(s: Seq<char>) -> Option<int>
    decreases s.len(),
{
    if s.len() == 0 {
        None
    } else if s[0] == '-' {
        Some(0)
    } else {
        match first_dash(s.drop_first()) {
            Some(k) => Some(k + 1),
            None => None,
        }
    }
}

proof fn lemma_first_dash(s: Seq<char>)
    ensures
        first_dash(s) matches Some(k) ==> 0 <= k < s.len() && s[k] == '-',
    decreases s.len(),
{
    if s.len() > 0 && s[0] != '-' {
        lemma_first_dash(s.drop_first());
    }
}

/// The characters `bytes=`.
pub open spec fn bytes_prefix() -> Seq<char> {
    seq!['b', 'y', 't', 'e', 's', '=']
}

/// The byte range `bytes=START-END` or `bytes=START-` asks for, within a
/// resource of `total` bytes: `None` when the header is malformed, the start
/// lies past the end, or the start exceeds the end; the end is clamped to
/// the last byte.
pub open spec fn range_of(h: Seq<char>, total: u64) -> Option<(u64, u64)> {
    if h.len() < 6 || h.subrange(0, 6) != bytes_prefix() {
        None
    } else {
        let rest = h.subrange(6, h.len() as int);
        match first_dash(rest) {
            None => None,
            Some(k) => match parse_u64_spec(rest.subrange(0, k)) {
                None => None,
                Some(start) => {
                    let end_str = rest.subrange(k + 1, rest.len() as int);
                    let end = if end_str.len() == 0 {
                        Some(if total == 0 { 0u64 } else { (total - 1) as u64 })
                    } else {
                        parse_u64_spec(end_str)
                    };
                    match end {
                        None => None,
                        Some(end) => if start > end || start >= total {
                            None
                        } else {
                            Some((start, if end < total - 1 { end } else { (total - 1) as u64 }))
                        },
                    }
                },
            },
        }
    }
}

/// A range that is served lies inside the resource: its start is at most
/// its end, and its end is below the resource's size.
pub proof fn lemma_range_inside(h: Seq<char>, total: u64)
    ensures
        range_of(h, total) matches Some((start, end)) ==> start <= end < total,
{
}

proof fn lemma_digits_value_prefix(s: Seq<char>, k: int)
    requires
        0 <= k <= s.len(),
        all_digits(s),
    ensures
        digits_value(s.subrange(0, k)) <= digits_value(s),
    decreases s.len() - k,
{
    if k < s.len() {
        lemma_digits_value_prefix(s, k + 1);
        assert(s.subrange(0, k + 1).drop_last() =~= s.subrange(0, k));
    } else {
        assert(s.subrange(0, k) =~= s);
    }
}

fn parse_u64_chars(s: &str, lo: usize, hi: usize) -> (r: Option<u64>)
    requires
        lo <= hi <= s@.len(),
    ensures
        r == parse_u64_spec(s@.subrange(lo as int, hi as int)),
{
    let ghost all = s@.subrange(lo as int, hi as int);
    let mut i = lo;
    if i < hi && s.get_char(i) == '+' {
        i += 1;
    }
    let ghost ds = unsigned_part(all);
    assert(ds =~= s@.subrange(i as int, hi as int));
    if i == hi {
        return None;
    }
    let start = i;
    let mut v: u64 = 0;
    while i < hi
        invariant
            start <= i <= hi <= s@.len(),
            all == s@.subrange(lo as int, hi as int),
            ds == unsigned_part(all),
            ds == s@.subrange(start as int, hi as int),
            forall|j: int| 0 <= j < i - start ==> is_digit(#[trigger] ds[j]),
            v == digits_value(ds.subrange(0, i - start)),
        decreases hi - i,
    {
        let c = s.get_char(i);
        if !(c >= '0' && c <= '9') {
            assert(!is_digit(ds[i - start]));
            assert(!all_digits(ds));
            return None;
        }
        let digit = (c as u32 - 48) as u64;
        let ghost pre = ds.subrange(0, i - start + 1);
        assert(pre.drop_last() =~= ds.subrange(0, i - start));
        if v > (u64::MAX - digit) / 10 {
            assert(v * 10 + digit > u64::MAX) by (nonlinear_arith)
                requires
                    v > (u64::MAX - digit) / 10,
                    digit <= 9,
            ;
            proof {
                if all_digits(ds) {
                    lemma_digits_value_prefix(ds, i - start + 1);
                }
            }
            return None;
        }
        v = v * 10 + digit;
        i += 1;
    }
    assert(ds.subrange(0, i - start) =~= ds);
    assert(all_digits(ds));
    Some(v)
}

fn find_dash(s: &str, lo: usize, hi: usize) -> (r: Option<usize>)
    requires
        lo <= hi <= s@.len(),
    ensures
        match first_dash(s@.subrange(lo as int, hi as int)) {
            Some(k) => r == Some((lo + k) as usize),
            None => r is None,
        },
{
    let mut i = lo;
    while i < hi
        invariant
            lo <= i <= hi <= s@.len(),
            first_dash(s@.subrange(lo as int, hi as int)) == match first_dash(s@.subrange(i as int, hi as int)) {
                Some(k) => Some(k + (i - lo)),
                None => None::<int>,
            },
        decreases hi - i,
    {
        let c = s.get_char(i);
        assert(s@.subrange(i as int, hi as int).drop_first() =~= s@.subrange(i + 1, hi as int));
        if c == '-' {
            return Some(i);
        }
        i += 1;
    }
    None
}

/// Parses `bytes=START-END` or `bytes=START-` from a `Range` header value.
pub fn parse_range_header(header_value: &str, total: u64) -> (r: Option<(u64, u64)>)
    ensures
        r == range_of(header_value@, total),
{
    let n = header_value.unicode_len();
    let ghost h = header_value@;
    if n < 6 {
        return None;
    }
    let prefix = "bytes=";
    proof {
        reveal_strlit("bytes=");
    }
    let mut i: usize = 0;
    while i < 6
        invariant
            i <= 6,
            h == header_value@,
            n == h.len(),
            6 <= n,
            prefix@ == bytes_prefix(),
            forall|j: int| 0 <= j < i ==> h[j] == bytes_prefix()[j],
        decreases 6 - i,
    {
        if header_value.get_char(i) != prefix.get_char(i) {
            assert(h.subrange(0, 6)[i as int] != bytes_prefix()[i as int]);
            return None;
        }
        i += 1;
    }
    assert(h.subrange(0, 6) =~= bytes_prefix());
    let ghost rest = h.subrange(6, h.len() as int);
    let dash = find_dash(header_value, 6, n);
    proof {
        lemma_first_dash(rest);
    }
    let k = match dash {
        Some(k) => k,
        None => {
            return None;
        },
    };
    assert(rest.subrange(0, k - 6) =~= h.subrange(6, k as int));
    assert(rest.subrange(k - 6 + 1, rest.len() as int) =~= h.subrange(k + 1, n as int));
    let start = match parse_u64_chars(header_value, 6, k) {
        Some(v) => v,
        None => {
            return None;
        },
    };
    let end = if k + 1 == n {
        if total == 0 { 0 } else { total - 1 }
    } else {
        match parse_u64_chars(header_value, k + 1, n) {
            Some(v) => v,
            None => {
                return None;
            },
        }
    };
    if start > end || start >= total {
        return None;
    }
    let end = if end < total - 1 { end } else { total - 1 };
    Some((start, end))
}

// ---------------------------------------------------------------------------
// Streaming conversion: the frames are found from the first index entry and
// the declared frame count, and the data between the last frame and the index
// becomes one more sample.

/// How a walk over a declared number of frame blocks ended.
pub enum StreamEnd {
    Done,
    BlockTruncated,
    RgbTruncated,
}

/// Walks `count` frame blocks from `offset`, trusting each block's size: the
/// RGB payload (start, length) of each, how the walk ended, and the offset
/// after the last block read.
pub open spec fn stream_walk(d: Seq<u8>, offset: int, count: nat) -> (Seq<(int, int)>, StreamEnd, int)
    decreases count,
{
    if count == 0 {
        (Seq::empty(), StreamEnd::Done, offset)
    } else if offset + 36 > d.len() {
        (Seq::empty(), StreamEnd::BlockTruncated, offset)
    } else {
        let rgb = le32(d, offset + 24);
        if rgb > 0 && offset + 36 + rgb > d.len() {
            (Seq::empty(), StreamEnd::RgbTruncated, offset)
        } else {
            let rest = stream_walk(d, offset + le32(d, offset + 4), (count - 1) as nat);
            (seq![(offset + 36, rgb)] + rest.0, rest.1, rest.2)
        }
    }
}

/// Offset of the frame index, from the footer.
pub open spec fn index_offset_of(d: Seq<u8>) -> int {
    le64(d, footer_pos(d) + 4)
}

/// Number of frames the footer declares.
pub open spec fn total_frames_of(d: Seq<u8>) -> int {
    le64(d, footer_pos(d) + 16)
}

/// The streaming walk of a recording: the declared number of frames, from
/// the offset held by the first index entry.
pub open spec fn stream_frames(d: Seq<u8>) -> (Seq<(int, int)>, StreamEnd, int) {
    stream_walk(d, le64(d, index_offset_of(d) + 8), total_frames_of(d) as nat)
}

/// The sample made of the data between the end of the last frame and the
/// index, when there is such data and it holds at least one NAL unit.
pub open spec fn trailing_samples(d: Seq<u8>, end: int) -> Seq<SampleView> {
    if end < index_offset_of(d) {
        let p = annex_b_payloads(d.subrange(end, index_offset_of(d)));
        if p.len() > 0 {
            seq![SampleView { data: avcc_bytes(p), is_keyframe: has_key_type(payload_types(p)) }]
        } else {
            Seq::empty()
        }
    } else {
        Seq::empty()
    }
}

/// The error the streaming conversion reports before reaching the
/// parameter sets, if any.
pub open spec fn stream_error(d: Seq<u8>) -> Option<Seq<char>> {
    if d.len() < 472 {
        Some("read header: failed to fill whole buffer"@)
    } else if d[340] != 2 {
        Some("Not H.264 \u{2014} not streamable"@)
    } else if d.len() < 508 {
        Some("File too small"@)
    } else if total_frames_of(d) == 0 {
        Some("No frames in file"@)
    } else if index_offset_of(d) + 24 > d.len() {
        Some("read index: failed to fill whole buffer"@)
    } else {
        match stream_frames(d).1 {
            StreamEnd::Done => None,
            StreamEnd::BlockTruncated => Some("read block header: failed to fill whole buffer"@),
            StreamEnd::RgbTruncated => Some("read rgb: failed to fill whole buffer"@),
        }
    }
}

/// What the streaming conversion of a recording with the given timescale
/// gives: the MP4 file, or the message of the first failure.
pub open spec fn stream_conversion(d: Seq<u8>, timescale: u32) -> Result<Seq<u8>, Seq<char>> {
    match stream_error(d) {
        Some(e) => Err(e),
        None => {
            let w = stream_frames(d);
            match params_of(d, w.0) {
                None => Err("No SPS found in H.264 stream"@),
                Some((sps, pps)) => Ok(mp4_file(
                    track_of(d, timescale, 1000, sps, pps),
                    samples_of(d, w.0) + trailing_samples(d, w.2),
                )),
            }
        },
    }
}

/// The recording is small enough for the streaming conversion to hold what
/// it copies: below 2^48 bytes, and the declared frames times the size
/// (each frame may copy up to the whole recording) at most 2^60.
pub open spec fn stream_fits(d: Seq<u8>) -> bool {
    &&& d.len() < 0x1_0000_0000_0000
    &&& d.len() >= 508 ==> (total_frames_of(d) + 1) * d.len() <= 0x1000_0000_0000_0000
}

/// The view of a streaming conversion's result.
pub open spec fn stream_result_view(r: Result<Vec<u8>, String>) -> Result<Seq<u8>, Seq<char>> {
    match r {
        Ok(v) => Ok(v@),
        Err(e) => Err(e@),
    }
}

proof fn lemma_stream_payload_step(p: int, i: int, l: int, x: int)
    by (nonlinear_arith)
    requires
        p <= i * (5 * l),
        x <= 5 * l,
    ensures
        p + x <= (i + 1) * (5 * l),
{
}

proof fn lemma_stream_total_bound(p: int, n: int, l: int)
    by (nonlinear_arith)
    requires
        p <= n * (5 * l),
        0 <= n,
        508 <= l,
        (n + 1) * l <= 0x1000_0000_0000_0000,
    ensures
        p + 5 * l <= 5 * 0x1000_0000_0000_0000,
        (n + 1) * 1000 <= 0x2000_0000_0000_0000,
{
}

/// Converts a recording to an MP4 file the way the viewer streams it: the
/// frame count comes from the footer, the first frame from the index, each
/// block's size is trusted, and data left between the last frame and the
/// index is kept as a last sample. The timescale is a thousand times the
/// frame rate the footer gives, rounded; the caller works it out in
/// floating point.
#[verifier::rlimit(50)]
pub fn egorec_to_mp4(data: &[u8], timescale: u32) -> (r: Result<Vec<u8>, String>)
    requires
        stream_fits(data@),
    ensures
        stream_result_view(r) == stream_conversion(data@, timescale),
{
    let ghost d = data@;
    let header = match FileHeader::read_from(data, 0) {
        Some(h) => h,
        None => {
            return Err(text("read header: failed to fill whole buffer"));
        },
    };
    if header.rgb_codec != 2 {
        return Err(text("Not H.264 \u{2014} not streamable"));
    }
    if data.len() < 508 {
        return Err(text("File too small"));
    }
    let footer = match FileFooter::read_from(data, data.len() - 36) {
        Some(f) => f,
        None => {
            return Err(text("read footer: failed to fill whole buffer"));
        },
    };
    let total_frames = footer.total_frames;
    let index_offset = footer.index_offset;
    if total_frames == 0 {
        return Err(text("No frames in file"));
    }
    if index_offset > data.len() as u64 || (data.len() as u64) - index_offset < 24 {
        return Err(text("read index: failed to fill whole buffer"));
    }
    let first_entry = match IndexEntry::read_from(data, index_offset as usize) {
        Some(e) => e,
        None => {
            return Err(text("read index: failed to fill whole buffer"));
        },
    };
    let ghost len = d.len() as int;
    let mut offset: u64 = first_entry.file_offset;
    let mut samples: Vec<Mp4Sample> = Vec::new();
    let mut sps: Option<Vec<u8>> = None;
    let mut pps: Option<Vec<u8>> = None;
    let ghost mut done: Seq<(int, int)> = Seq::empty();
    let mut i: u64 = 0;
    assert(done + stream_walk(d, offset as int, total_frames as nat).0
        =~= stream_walk(d, offset as int, total_frames as nat).0);
    assert(sample_views(samples@) =~= samples_of(d, done));
    while i < total_frames
        invariant
            d == data@,
            stream_fits(d),
            len == d.len(),
            508 <= d.len(),
            total_frames == total_frames_of(d),
            index_offset == index_offset_of(d),
            header.rgb_codec == 2,
            header.read_at(d, 0),
            footer.read_at(d, footer_pos(d)),
            index_offset + 24 <= d.len(),
            i <= total_frames,
            stream_frames(d) == ({
                let w = stream_walk(d, offset as int, (total_frames - i) as nat);
                (done + w.0, w.1, w.2)
            }),
            sample_views(samples@) == samples_of(d, done),
            params_match(sps, pps, params_of(d, done)),
            payload_len(sample_views(samples@)) <= i * (5 * len),
            samples@.len() == i,
        decreases total_frames - i,
    {
        if offset > data.len() as u64 || (data.len() as u64) - offset < 36 {
            return Err(text("read block header: failed to fill whole buffer"));
        }
        let pos = offset as usize;
        let block = match FrameBlockHeader::read_from(data, pos) {
            Some(b) => b,
            None => {
                return Err(text("read block header: failed to fill whole buffer"));
            },
        };
        let rgb_size = block.rgb_compressed_size;
        let ghost f: (int, int) = (pos + 36, rgb_size as int);
        let ghost old_views = sample_views(samples@);
        if rgb_size > 0 {
            if data.len() - pos - 36 < rgb_size as usize {
                return Err(text("read rgb: failed to fill whole buffer"));
            }
            let h264_data = copy_range(data, pos + 36, rgb_size as usize);
            let nals = parse_annex_b(h264_data.as_slice());
            proof {
                lemma_nals_match(nals@, annex_b_payloads(h264_data@));
                lemma_avcc_len_bound(h264_data@);
                lemma_params_push(d, done, f);
            }
            if sps.is_none() {
                match extract_sps_pps(nals.as_slice()) {
                    Some((stream_sps, stream_pps)) => {
                        sps = Some(stream_sps);
                        pps = Some(stream_pps);
                    },
                    None => {},
                }
            }
            let sample = Mp4Sample {
                data: nals_to_avcc(nals.as_slice()),
                is_keyframe: is_keyframe(nals.as_slice()),
            };
            proof {
                assert(sample@ == sample_of(d, f));
            }
            samples.push(sample);
        } else {
            proof {
                lemma_params_push(d, done, f);
            }
            let sample = Mp4Sample { data: Vec::new(), is_keyframe: false };
            proof {
                assert(sample@ == sample_of(d, f));
            }
            samples.push(sample);
        }
        proof {
            let next = offset + block.block_size;
            let w = stream_walk(d, offset as int, (total_frames - i) as nat);
            let wn = stream_walk(d, next as int, (total_frames - (i + 1)) as nat);
            assert(w == (seq![f] + wn.0, wn.1, wn.2));
            assert(done.push(f) + wn.0 =~= done + (seq![f] + wn.0));
            assert(sample_views(samples@) =~= old_views.push(sample_of(d, f)));
            assert(samples_of(d, done.push(f)) =~= samples_of(d, done).push(sample_of(d, f)));
            lemma_payload_len_push(old_views, sample_of(d, f));
            lemma_stream_payload_step(payload_len(old_views), i as int, len,
                sample_of(d, f).data.len() as int);
            done = done.push(f);
        }
        offset = offset + block.block_size as u64;
        i = i + 1;
    }
    let ghost w_end = stream_walk(d, offset as int, 0);
    assert(done + w_end.0 =~= done);
    let ghost frame_views = sample_views(samples@);
    if offset < index_offset {
        let trailing = copy_range(data, offset as usize, (index_offset - offset) as usize);
        assert(trailing@ =~= d.subrange(offset as int, index_offset as int));
        let nals = parse_annex_b(trailing.as_slice());
        proof {
            lemma_nals_match(nals@, annex_b_payloads(trailing@));
            lemma_avcc_len_bound(trailing@);
        }
        if nals.len() > 0 {
            let sample = Mp4Sample {
                data: nals_to_avcc(nals.as_slice()),
                is_keyframe: is_keyframe(nals.as_slice()),
            };
            samples.push(sample);
            proof {
                assert(sample_views(samples@) =~= frame_views.push(sample@));
                lemma_payload_len_push(frame_views, sample@);
            }
        }
    }
    proof {
        assert(sample_views(samples@) =~= samples_of(d, done) + trailing_samples(d, offset as int));
        lemma_stream_total_bound(payload_len(frame_views), total_frames as int, len);
        lemma_sum_sizes_le_payload_len(sample_views(samples@));
    }
    let sps = match sps {
        Some(s) => s,
        None => {
            return Err(text("No SPS found in H.264 stream"));
        },
    };
    let pps = match pps {
        Some(p) => p,
        None => {
            return Err(text("No PPS found in H.264 stream"));
        },
    };
    let config = Mp4TrackConfig {
        width: header.color_width,
        height: header.color_height,
        timescale,
        sample_delta: 1000,
        sps,
        pps,
    };
    Ok(build_mp4(&config, samples.as_slice()))
}

} // verus!
