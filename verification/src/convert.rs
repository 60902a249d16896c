//! `.egorec` to MP4 / fragmented MP4 conversion. The functions take the
//! recording's bytes; reading and writing files is left to the caller.
use vstd::prelude::*;
use crate::byte_order::{le32, le64};
use crate::format::{file_magic, file_magic_bytes, FileFooter, FileHeader, FrameBlockHeader,
    FOOTER_MAGIC, FRAME_MAGIC, INDEX_MAGIC};
use crate::h264_annex_b::{annex_b_payloads, avcc_bytes, extract_sps_pps, first_of_type,
    has_key_type, is_keyframe, lemma_avcc_len_bound, lemma_nals_match, nal_data, nal_types,
    nals_to_avcc, parse_annex_b, payload_types};
use crate::mp4_mux::{build_fmp4_init, build_fmp4_segment, build_mp4, fmp4_init, fmp4_segment,
    mp4_file, payload_len, sample_sizes, sample_views, sum_sizes, lemma_sum_sizes_le_payload_len,
    Mp4Sample, Mp4TrackConfig,
    SampleView, TrackParams};
use crate::text::{decimal, hex_digits, push_decimal, push_hex, text};

verus! {

/// The only RGB codec a browser can stream: H.264.
pub const STREAMABLE_RGB_CODEC: u8 = 2;

/// Conversion failure.
#[derive(Debug)]
pub enum ConvertError {
    Io(String),
    InvalidFormat(String),
    UnsupportedCodec(u8),
}

/// What a conversion failure stands for.
pub enum ConvertErrorView {
    Io(Seq<char>),
    InvalidFormat(Seq<char>),
    UnsupportedCodec(u8),
}

impl View for ConvertError {
    type V = ConvertErrorView;

    open spec fn view(&self) -> ConvertErrorView {
        match self {
            ConvertError::Io(m) => ConvertErrorView::Io(m@),
            ConvertError::InvalidFormat(m) => ConvertErrorView::InvalidFormat(m@),
            ConvertError::UnsupportedCodec(c) => ConvertErrorView::UnsupportedCodec(*c),
        }
    }
}

/// The text a conversion failure is reported with.
pub open spec fn convert_error_text(e: ConvertErrorView) -> Seq<char> {
    match e {
        ConvertErrorView::Io(m) => m,
        ConvertErrorView::InvalidFormat(m) => m,
        ConvertErrorView::UnsupportedCodec(c) => "rgb_codec="@ + decimal(c as nat)
            + " is not browser-streamable (need 2 for H.264)"@,
    }
}

impl ConvertError {
    /// The text the failure is reported with.
    pub fn message(&self) -> (m: String)
        ensures
            m@ == convert_error_text(self@),
    {
        match self {
            ConvertError::Io(msg) => msg.clone(),
            ConvertError::InvalidFormat(msg) => msg.clone(),
            ConvertError::UnsupportedCodec(codec) => {
                let mut m = text("rgb_codec=");
                push_decimal(&mut m, *codec as u64);
                m.append(" is not browser-streamable (need 2 for H.264)");
                m
            },
        }
    }

    /// Process exit status for this error: 2 for an unsupported codec, 1 otherwise.
    pub fn exit_code(&self) -> (code: i32)
        ensures
            code == (if self is UnsupportedCodec { 2i32 } else { 1i32 }),
    {
        match self {
            ConvertError::UnsupportedCodec(_) => 2,
            ConvertError::Io(_) | ConvertError::InvalidFormat(_) => 1,
        }
    }
}

// ---------------------------------------------------------------------------
// What a recording converts to.

/// How the walk over the frame blocks ended.
pub enum WalkEnd {
    Done,
    HeaderTruncated,
    BadMagic(u32),
    BlockTooSmall,
    RgbTooLarge,
    RgbTruncated,
}

pub open spec fn walk_measure(offset: int, end: int) -> nat {
    if offset < end { (end - offset) as nat } else { 0 }
}

/// Walks the frame blocks from `offset` until `end` (the index offset): the
/// RGB payload of each block (start, length), and how the walk ended.
pub open spec fn frame_walk(d: Seq<u8>, offset: int, end: int) -> (Seq<(int, int)>, WalkEnd)
    decreases walk_measure(offset, end),
{
    if offset >= end || offset < 0 {
        (Seq::empty(), WalkEnd::Done)
    } else if offset + 36 > d.len() {
        (Seq::empty(), WalkEnd::HeaderTruncated)
    } else {
        let magic = le32(d, offset);
        let block_size = le32(d, offset + 4);
        let rgb = le32(d, offset + 24);
        if magic != FRAME_MAGIC {
            (Seq::empty(), WalkEnd::BadMagic(magic as u32))
        } else if block_size < 36 {
            (Seq::empty(), WalkEnd::BlockTooSmall)
        } else if rgb > block_size - 36 {
            (Seq::empty(), WalkEnd::RgbTooLarge)
        } else if rgb > 0 && offset + 36 + rgb > d.len() {
            (Seq::empty(), WalkEnd::RgbTruncated)
        } else {
            let rest = frame_walk(d, offset + block_size, end);
            (seq![(offset + 36, rgb)] + rest.0, rest.1)
        }
    }
}

/// Position of the footer: the last 36 bytes.
pub open spec fn footer_pos(d: Seq<u8>) -> int {
    d.len() - 36
}

/// The frame walk of a whole recording: from the end of the header to the index.
pub open spec fn recording_walk(d: Seq<u8>) -> (Seq<(int, int)>, WalkEnd) {
    frame_walk(d, 472, le64(d, footer_pos(d) + 4))
}

/// The error the header and footer checks report, if any.
pub open spec fn header_error(d: Seq<u8>) -> Option<ConvertErrorView> {
    if d.len() < 472 {
        Some(ConvertErrorView::InvalidFormat("read header: failed to fill whole buffer"@))
    } else if d.subrange(0, 8) != file_magic() {
        Some(ConvertErrorView::InvalidFormat("invalid .egorec magic"@))
    } else if le32(d, 8) != 472 {
        Some(ConvertErrorView::InvalidFormat("unexpected header size: "@ + decimal(le32(d, 8) as nat)))
    } else if d[340] != STREAMABLE_RGB_CODEC {
        Some(ConvertErrorView::UnsupportedCodec(d[340]))
    } else if d.len() < 508 {
        Some(ConvertErrorView::InvalidFormat("file too small"@))
    } else if le32(d, footer_pos(d) + 32) != FOOTER_MAGIC {
        Some(ConvertErrorView::InvalidFormat("invalid footer magic"@))
    } else if le32(d, footer_pos(d)) != INDEX_MAGIC {
        Some(ConvertErrorView::InvalidFormat("invalid index magic"@))
    } else if le64(d, footer_pos(d) + 16) == 0 {
        Some(ConvertErrorView::InvalidFormat("no frames in file"@))
    } else {
        None
    }
}

/// The error a frame walk that ended this way reports, if any.
pub open spec fn walk_error(e: WalkEnd) -> Option<ConvertErrorView> {
    match e {
        WalkEnd::Done => None,
        WalkEnd::HeaderTruncated => Some(ConvertErrorView::InvalidFormat(
            "read frame block: failed to fill whole buffer"@)),
        WalkEnd::BadMagic(m) => Some(ConvertErrorView::InvalidFormat(
            "invalid frame magic: 0x"@ + hex_digits(m as nat, 8))),
        WalkEnd::BlockTooSmall => Some(ConvertErrorView::InvalidFormat(
            "frame block smaller than header"@)),
        WalkEnd::RgbTooLarge => Some(ConvertErrorView::InvalidFormat(
            "rgb payload exceeds frame block size"@)),
        WalkEnd::RgbTruncated => Some(ConvertErrorView::Io(
            "read rgb payload: failed to fill whole buffer"@)),
    }
}

/// The first error a recording's parse reports, if any.
pub open spec fn recording_error(d: Seq<u8>) -> Option<ConvertErrorView> {
    match header_error(d) {
        Some(e) => Some(e),
        None => walk_error(recording_walk(d).1),
    }
}

/// The Annex-B RGB payload of a frame.
pub open spec fn rgb_payload(d: Seq<u8>, f: (int, int)) -> Seq<u8> {
    d.subrange(f.0, f.0 + f.1)
}

/// The MP4 sample a frame becomes: its NAL units in AVCC form, and whether
/// one of them makes it a keyframe. A frame without RGB data gives an empty
/// non-key sample.
pub open spec fn sample_of(d: Seq<u8>, f: (int, int)) -> SampleView {
    if f.1 > 0 {
        let p = annex_b_payloads(rgb_payload(d, f));
        SampleView { data: avcc_bytes(p), is_keyframe: has_key_type(payload_types(p)) }
    } else {
        SampleView { data: Seq::empty(), is_keyframe: false }
    }
}

pub open spec fn samples_of(d: Seq<u8>, frames: Seq<(int, int)>) -> Seq<SampleView> {
    Seq::new(frames.len(), |i: int| sample_of(d, frames[i]))
}

/// The first SPS and first PPS of a frame, when it has both.
pub open spec fn frame_params(d: Seq<u8>, f: (int, int)) -> Option<(Seq<u8>, Seq<u8>)> {
    if f.1 > 0 {
        let p = annex_b_payloads(rgb_payload(d, f));
        match (first_of_type(payload_types(p), 7), first_of_type(payload_types(p), 8)) {
            (Some(i), Some(j)) => Some((p[i], p[j])),
            _ => None,
        }
    } else {
        None
    }
}

/// The parameter sets of the first frame that carries both an SPS and a PPS.
pub open spec fn params_of(d: Seq<u8>, frames: Seq<(int, int)>) -> Option<(Seq<u8>, Seq<u8>)>
    decreases frames.len(),
{
    if frames.len() == 0 {
        None
    } else {
        match params_of(d, frames.drop_last()) {
            Some(x) => Some(x),
            None => frame_params(d, frames.last()),
        }
    }
}

/// Track parameters of a recording with the given timescale, sample
/// duration and parameter sets.
pub open spec fn track_of(d: Seq<u8>, timescale: u32, sample_delta: u32, sps: Seq<u8>,
    pps: Seq<u8>) -> TrackParams {
    TrackParams {
        width: le32(d, 100) as u32,
        height: le32(d, 104) as u32,
        timescale,
        sample_delta,
        sps,
        pps,
    }
}

/// What converting a recording to a complete MP4 file with the given
/// timescale gives.
pub open spec fn mp4_conversion(d: Seq<u8>, timescale: u32) -> Result<Seq<u8>, ConvertErrorView> {
    match recording_error(d) {
        Some(e) => Err(e),
        None => {
            let frames = recording_walk(d).0;
            match params_of(d, frames) {
                None => Err(ConvertErrorView::InvalidFormat("no SPS found in H.264 stream"@)),
                Some((sps, pps)) => Ok(mp4_file(
                    track_of(d, timescale, 1000, sps, pps),
                    samples_of(d, frames),
                )),
            }
        },
    }
}

/// What converting a recording to a fragmented MP4 initialization segment gives.
pub open spec fn fmp4_init_conversion(d: Seq<u8>, timescale: u32, sample_delta: u32) -> Result<
    Seq<u8>,
    ConvertErrorView,
> {
    match recording_error(d) {
        Some(e) => Err(e),
        None => match params_of(d, recording_walk(d).0) {
            None => Err(ConvertErrorView::InvalidFormat("no SPS found in H.264 stream"@)),
            Some((sps, pps)) => Ok(fmp4_init(track_of(d, timescale, sample_delta, sps, pps))),
        },
    }
}

/// What converting a recording to one fragmented MP4 media segment gives.
/// The parameter sets are not needed there; they are empty when absent.
pub open spec fn fmp4_segment_conversion(d: Seq<u8>, timescale: u32, sample_delta: u32,
    sequence_number: u32, base_decode_time: u64) -> Result<Seq<u8>, ConvertErrorView> {
    match recording_error(d) {
        Some(e) => Err(e),
        None => {
            let frames = recording_walk(d).0;
            let (sps, pps) = match params_of(d, frames) {
                Some(x) => x,
                None => (Seq::empty(), Seq::empty()),
            };
            Ok(fmp4_segment(track_of(d, timescale, sample_delta, sps, pps), samples_of(d, frames),
                sequence_number, base_decode_time))
        },
    }
}

/// The view of a conversion result.
pub open spec fn result_view(r: Result<Vec<u8>, ConvertError>) -> Result<Seq<u8>, ConvertErrorView> {
    match r {
        Ok(v) => Ok(v@),
        Err(e) => Err(e@),
    }
}


// ---------------------------------------------------------------------------
// Parsing a recording.

/// A recording parsed for remuxing.
struct ParsedRaw {
    header: FileHeader,
    footer: FileFooter,
    samples: Vec<Mp4Sample>,
    sps: Option<Vec<u8>>,
    pps: Option<Vec<u8>>,
}

/// The optional parameter sets hold exactly `p`.
pub open spec fn params_match(sps: Option<Vec<u8>>, pps: Option<Vec<u8>>,
    p: Option<(Seq<u8>, Seq<u8>)>) -> bool {
    match p {
        Some((a, b)) => sps is Some && sps->0@ == a && pps is Some && pps->0@ == b,
        None => sps is None && pps is None,
    }
}

fn invalid(msg: &str) -> (e: ConvertError)
    ensures
        e@ == ConvertErrorView::InvalidFormat(msg@),
{
    ConvertError::InvalidFormat(text(msg))
}

fn bytes_eq(a: &Vec<u8>, b: &Vec<u8>) -> (r: bool)
    ensures
        r == (a@ == b@),
{
    if a.len() != b.len() {
        return false;
    }
    let mut i: usize = 0;
    while i < a.len()
        invariant
            i <= a@.len(),
            a@.len() == b@.len(),
            forall|j: int| 0 <= j < i ==> a@[j] == b@[j],
        decreases a@.len() - i,
    {
        if a[i] != b[i] {
            return false;
        }
        i += 1;
    }
    assert(a@ =~= b@);
    true
}

pub(crate) fn copy_range(data: &[u8], start: usize, len: usize) -> (r: Vec<u8>)
    requires
        start + len <= data.len(),
    ensures
        r@ == data@.subrange(start as int, start + len),
{
    let mut r: Vec<u8> = Vec::new();
    let mut i: usize = 0;
    while i < len
        invariant
            i <= len,
            start + len <= data.len(),
            r@ == data@.subrange(start as int, start + i),
        decreases len - i,
    {
        r.push(data[start + i]);
        i += 1;
        assert(r@ =~= data@.subrange(start as int, start + i));
    }
    r
}

pub(crate) proof fn lemma_payload_len_push(s: Seq<SampleView>, x: SampleView)
    ensures
        payload_len(s.push(x)) == payload_len(s) + x.data.len(),
{
    assert(s.push(x).drop_last() =~= s);
}

pub(crate) proof fn lemma_params_push(d: Seq<u8>, done: Seq<(int, int)>, f: (int, int))
    ensures
        params_of(d, done.push(f)) == match params_of(d, done) {
            Some(x) => Some(x),
            None => frame_params(d, f),
        },
{
    assert(done.push(f).drop_last() =~= done);
}

#[verifier::rlimit(50)]
fn parse_egorec_raw(data: &[u8]) -> (r: Result<ParsedRaw, ConvertError>)
    requires
        data@.len() < 0x1_0000_0000_0000,
    ensures
        match r {
            Ok(raw) => {
                &&& recording_error(data@) is None
                &&& raw.header.read_at(data@, 0)
                &&& raw.footer.read_at(data@, footer_pos(data@))
                &&& sample_views(raw.samples@) == samples_of(data@, recording_walk(data@).0)
                &&& params_match(raw.sps, raw.pps, params_of(data@, recording_walk(data@).0))
                &&& payload_len(sample_views(raw.samples@)) <= 6 * 0x1_0000_0000_0000
                &&& raw.samples@.len() <= 2 * 0x1_0000_0000_0000
            },
            Err(e) => recording_error(data@) == Some(e@),
        },
{
    let ghost d = data@;
    let header = match FileHeader::read_from(data, 0) {
        Some(h) => h,
        None => {
            return Err(invalid("read header: failed to fill whole buffer"));
        },
    };
    let magic = file_magic_bytes();
    if !bytes_eq(&header.magic, &magic) {
        return Err(invalid("invalid .egorec magic"));
    }
    if header.header_size != 472 {
        let mut m = text("unexpected header size: ");
        push_decimal(&mut m, header.header_size as u64);
        return Err(ConvertError::InvalidFormat(m));
    }
    if header.rgb_codec != STREAMABLE_RGB_CODEC {
        return Err(ConvertError::UnsupportedCodec(header.rgb_codec));
    }
    if data.len() < 508 {
        return Err(invalid("file too small"));
    }
    let footer = match FileFooter::read_from(data, data.len() - 36) {
        Some(f) => f,
        None => {
            return Err(invalid("read footer: failed to fill whole buffer"));
        },
    };
    if footer.footer_magic != FOOTER_MAGIC {
        return Err(invalid("invalid footer magic"));
    }
    if footer.index_magic != INDEX_MAGIC {
        return Err(invalid("invalid index magic"));
    }
    if footer.total_frames == 0 {
        return Err(invalid("no frames in file"));
    }
    assert(header_error(d) is None);

    let end = footer.index_offset;
    let mut offset: u64 = 472;
    let mut samples: Vec<Mp4Sample> = Vec::new();
    let mut sps: Option<Vec<u8>> = None;
    let mut pps: Option<Vec<u8>> = None;
    let ghost mut done: Seq<(int, int)> = Seq::empty();
    assert(done + frame_walk(d, 472, end as int).0 =~= frame_walk(d, 472, end as int).0);
    assert(sample_views(samples@) =~= samples_of(d, done));
    while offset < end
        invariant
            d == data@,
            d.len() < 0x1_0000_0000_0000,
            header_error(d) is None,
            472 <= offset <= d.len() + 0xFFFF_FFFF,
            end == le64(d, footer_pos(d) + 4),
            recording_walk(d) == (done + frame_walk(d, offset as int, end as int).0,
                frame_walk(d, offset as int, end as int).1),
            sample_views(samples@) == samples_of(d, done),
            params_match(sps, pps, params_of(d, done)),
            payload_len(sample_views(samples@)) <= 5 * (offset - 472),
            samples@.len() <= offset - 472,
        decreases walk_measure(offset as int, end as int),
    {
        if offset > data.len() as u64 || (data.len() as u64) - offset < 36 {
            return Err(invalid("read frame block: failed to fill whole buffer"));
        }
        let pos = offset as usize;
        let block = match FrameBlockHeader::read_from(data, pos) {
            Some(b) => b,
            None => {
                return Err(invalid("read frame block: failed to fill whole buffer"));
            },
        };
        if block.magic != FRAME_MAGIC {
            let mut m = text("invalid frame magic: 0x");
            push_hex(&mut m, block.magic as u64, 8);
            return Err(ConvertError::InvalidFormat(m));
        }
        if block.block_size < 36 {
            return Err(invalid("frame block smaller than header"));
        }
        let rgb_size = block.rgb_compressed_size;
        let payload_bytes = block.block_size - 36;
        if rgb_size > payload_bytes {
            return Err(invalid("rgb payload exceeds frame block size"));
        }
        let ghost f: (int, int) = (pos + 36, rgb_size as int);
        let ghost old_views = sample_views(samples@);
        if rgb_size > 0 {
            if data.len() - pos - 36 < rgb_size as usize {
                return Err(ConvertError::Io(text("read rgb payload: failed to fill whole buffer")));
            }
            let h264_data = copy_range(data, pos + 36, rgb_size as usize);
            let nals = parse_annex_b(h264_data.as_slice());
            proof {
                lemma_nals_match(nals@, annex_b_payloads(h264_data@));
                lemma_avcc_len_bound(h264_data@);
                lemma_params_push(d, done, f);
            }
            if sps.is_none() {
                match extract_sps_pps(nals.as_slice()) {
                    Some((stream_sps, stream_pps)) => {
                        sps = Some(stream_sps);
                        pps = Some(stream_pps);
                    },
                    None => {},
                }
            }
            let sample = Mp4Sample { data: nals_to_avcc(nals.as_slice()), is_keyframe: is_keyframe(nals.as_slice()) };
            proof {
                assert(sample@ == sample_of(d, f));
            }
            samples.push(sample);
        } else {
            proof {
                lemma_params_push(d, done, f);
            }
            let sample = Mp4Sample { data: Vec::new(), is_keyframe: false };
            proof {
                assert(sample@ == sample_of(d, f));
            }
            samples.push(sample);
        }
        proof {
            let next = offset + block.block_size;
            let w = frame_walk(d, offset as int, end as int);
            let wn = frame_walk(d, next as int, end as int);
            assert(w == (seq![f] + wn.0, wn.1));
            assert(done.push(f) + wn.0 =~= done + (seq![f] + wn.0));
            assert(sample_views(samples@) =~= old_views.push(sample_of(d, f)));
            assert(samples_of(d, done.push(f)) =~= samples_of(d, done).push(sample_of(d, f)));
            lemma_payload_len_push(old_views, sample_of(d, f));
            done = done.push(f);
        }
        offset = offset + block.block_size as u64;
    }
    proof {
        assert(done + Seq::<(int, int)>::empty() =~= done);
    }
    Ok(ParsedRaw { header, footer, samples, sps, pps })
}


/// A recording's track: configuration and samples.
struct ParsedTrack {
    config: Mp4TrackConfig,
    samples: Vec<Mp4Sample>,
}

/// Parses a recording, requiring SPS/PPS (for a full MP4 and an init segment).
fn parse_egorec(data: &[u8], timescale: u32) -> (r: Result<ParsedTrack, ConvertError>)
    requires
        data@.len() < 0x1_0000_0000_0000,
    ensures
        match r {
            Ok(t) => {
                &&& recording_error(data@) is None
                &&& params_of(data@, recording_walk(data@).0) matches Some((sps, pps))
                &&& t.config@ == track_of(data@, timescale, 1000, sps, pps)
                &&& sample_views(t.samples@) == samples_of(data@, recording_walk(data@).0)
                &&& payload_len(sample_views(t.samples@)) <= 6 * 0x1_0000_0000_0000
                &&& t.samples@.len() <= 2 * 0x1_0000_0000_0000
            },
            Err(e) => match recording_error(data@) {
                Some(x) => e@ == x,
                None => params_of(data@, recording_walk(data@).0) is None
                    && e@ == ConvertErrorView::InvalidFormat("no SPS found in H.264 stream"@),
            },
        },
{
    let raw = match parse_egorec_raw(data) {
        Ok(raw) => raw,
        Err(e) => {
            return Err(e);
        },
    };
    let sps = match raw.sps {
        Some(s) => s,
        None => {
            return Err(invalid("no SPS found in H.264 stream"));
        },
    };
    let pps = match raw.pps {
        Some(p) => p,
        None => {
            return Err(invalid("no PPS found in H.264 stream"));
        },
    };
    Ok(ParsedTrack {
        config: Mp4TrackConfig {
            width: raw.header.color_width,
            height: raw.header.color_height,
            timescale,
            sample_delta: 1000,
            sps,
            pps,
        },
        samples: raw.samples,
    })
}

/// Parses a recording for a media segment: SPS/PPS are not needed there (the
/// init segment's avcC box carries them) and are left empty when absent.
fn parse_egorec_for_segment(data: &[u8], timescale: u32) -> (r: Result<ParsedTrack, ConvertError>)
    requires
        data@.len() < 0x1_0000_0000_0000,
    ensures
        match r {
            Ok(t) => {
                &&& recording_error(data@) is None
                &&& t.config@ == ({
                    let (sps, pps) = match params_of(data@, recording_walk(data@).0) {
                        Some(x) => x,
                        None => (Seq::empty(), Seq::empty()),
                    };
                    track_of(data@, timescale, 1000, sps, pps)
                })
                &&& sample_views(t.samples@) == samples_of(data@, recording_walk(data@).0)
                &&& payload_len(sample_views(t.samples@)) <= 6 * 0x1_0000_0000_0000
            },
            Err(e) => recording_error(data@) == Some(e@),
        },
{
    let raw = match parse_egorec_raw(data) {
        Ok(raw) => raw,
        Err(e) => {
            return Err(e);
        },
    };
    let sps = match raw.sps {
        Some(s) => s,
        None => Vec::new(),
    };
    let pps = match raw.pps {
        Some(p) => p,
        None => Vec::new(),
    };
    let config = Mp4TrackConfig {
        width: raw.header.color_width,
        height: raw.header.color_height,
        timescale,
        sample_delta: 1000,
        sps,
        pps,
    };
    proof {
        match params_of(data@, recording_walk(data@).0) {
            Some(x) => {},
            None => {
                assert(config.sps@ =~= Seq::<u8>::empty());
                assert(config.pps@ =~= Seq::<u8>::empty());
            },
        }
    }
    Ok(ParsedTrack { config, samples: raw.samples })
}

/// Converts a recording to a complete MP4 file holding its H.264 track,
/// with the given timescale (a thousand times the frame rate the footer
/// gives, rounded; the caller works it out in floating point) and samples
/// of 1000 ticks.
pub fn egorec_to_mp4(data: &[u8], timescale: u32) -> (r: Result<Vec<u8>, ConvertError>)
    requires
        data@.len() < 0x1_0000_0000_0000,
    ensures
        result_view(r) == mp4_conversion(data@, timescale),
{
    let parsed = match parse_egorec(data, timescale) {
        Ok(p) => p,
        Err(e) => {
            return Err(e);
        },
    };
    proof {
        lemma_sum_sizes_le_payload_len(sample_views(parsed.samples@));
    }
    Ok(build_mp4(&parsed.config, parsed.samples.as_slice()))
}

/// Converts a recording to the initialization segment of a fragmented MP4
/// file with the given timescale and sample duration.
pub fn egorec_to_fmp4_init(data: &[u8], timescale: u32, sample_delta: u32) -> (r: Result<
    Vec<u8>,
    ConvertError,
>)
    requires
        data@.len() < 0x1_0000_0000_0000,
    ensures
        result_view(r) == fmp4_init_conversion(data@, timescale, sample_delta),
{
    let mut parsed = match parse_egorec(data, timescale) {
        Ok(p) => p,
        Err(e) => {
            return Err(e);
        },
    };
    parsed.config.timescale = timescale;
    parsed.config.sample_delta = sample_delta;
    Ok(build_fmp4_init(&parsed.config))
}

/// Converts a recording to one media segment of a fragmented MP4 file.
pub fn egorec_to_fmp4_segment(
    data: &[u8],
    timescale: u32,
    sample_delta: u32,
    sequence_number: u32,
    base_decode_time: u64,
) -> (r: Result<Vec<u8>, ConvertError>)
    requires
        data@.len() < 0x1_0000_0000_0000,
    ensures
        result_view(r) == fmp4_segment_conversion(data@, timescale, sample_delta, sequence_number,
            base_decode_time),
{
    let mut parsed = match parse_egorec_for_segment(data, timescale) {
        Ok(p) => p,
        Err(e) => {
            return Err(e);
        },
    };
    parsed.config.timescale = timescale;
    parsed.config.sample_delta = sample_delta;
    Ok(build_fmp4_segment(&parsed.config, parsed.samples.as_slice(), sequence_number, base_decode_time))
}

} // verus!
