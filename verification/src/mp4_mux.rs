//! Minimal MP4/fMP4 muxer for a single H.264 video track.
use vstd::prelude::*;
use crate::byte_order::{be16_bytes, be32, be32_bytes, be64_bytes, lemma_be32_roundtrip, push_be16, push_be32, push_be64, push_all};

verus! {

pub const TRACK_ID: u32 = 1;
pub const NON_SYNC_SAMPLE_FLAGS: u32 = 0x0101_0000;
pub const SYNC_SAMPLE_FLAGS: u32 = 0x0200_0000;

// Four-character codes, as big-endian `u32` values.
pub const FTYP: u32 = 0x66747970;
pub const ISOM: u32 = 0x69736f6d;
pub const ISO6: u32 = 0x69736f36;
pub const AVC1: u32 = 0x61766331;
pub const MP41: u32 = 0x6d703431;
pub const MOOV: u32 = 0x6d6f6f76;
pub const MVHD: u32 = 0x6d766864;
pub const TRAK: u32 = 0x7472616b;
pub const TKHD: u32 = 0x746b6864;
pub const MDIA: u32 = 0x6d646961;
pub const MDHD: u32 = 0x6d646864;
pub const HDLR: u32 = 0x68646c72;
pub const VIDE: u32 = 0x76696465;
pub const MINF: u32 = 0x6d696e66;
pub const VMHD: u32 = 0x766d6864;
pub const DINF: u32 = 0x64696e66;
pub const DREF: u32 = 0x64726566;
pub const URL_: u32 = 0x75726c20;
pub const STBL: u32 = 0x7374626c;
pub const STSD: u32 = 0x73747364;
pub const AVCC: u32 = 0x61766343;
pub const STTS: u32 = 0x73747473;
pub const STSC: u32 = 0x73747363;
pub const STSZ: u32 = 0x7374737a;
pub const CO64: u32 = 0x636f3634;
pub const STCO: u32 = 0x7374636f;
pub const STSS: u32 = 0x73747373;
pub const MVEX: u32 = 0x6d766578;
pub const TREX: u32 = 0x74726578;
pub const MDAT: u32 = 0x6d646174;
pub const MOOF: u32 = 0x6d6f6f66;
pub const MFHD: u32 = 0x6d666864;
pub const TRAF: u32 = 0x74726166;
pub const TFHD: u32 = 0x74666864;
pub const TFDT: u32 = 0x74666474;
pub const TRUN: u32 = 0x7472756e;

/// One encoded access unit in AVCC form.
pub struct Mp4Sample {
    pub data: Vec<u8>,
    pub is_keyframe: bool,
}

/// Track parameters: picture size, time base and the avcC parameter sets.
pub struct Mp4TrackConfig {
    pub width: u32,
    pub height: u32,
    pub timescale: u32,
    pub sample_delta: u32,
    pub sps: Vec<u8>,
    pub pps: Vec<u8>,
}


/// What a sample stands for: its bytes and whether it is a keyframe.
pub struct SampleView {
    pub data: Seq<u8>,
    pub is_keyframe: bool,
}

impl View for Mp4Sample {
    type V = SampleView;

    open spec fn view(&self) -> SampleView {
        SampleView { data: self.data@, is_keyframe: self.is_keyframe }
    }
}

/// What a track configuration stands for.
pub struct TrackParams {
    pub width: u32,
    pub height: u32,
    pub timescale: u32,
    pub sample_delta: u32,
    pub sps: Seq<u8>,
    pub pps: Seq<u8>,
}

impl View for Mp4TrackConfig {
    type V = TrackParams;

    open spec fn view(&self) -> TrackParams {
        TrackParams {
            width: self.width,
            height: self.height,
            timescale: self.timescale,
            sample_delta: self.sample_delta,
            sps: self.sps@,
            pps: self.pps@,
        }
    }
}

/// The views of a sequence of samples.
pub open spec fn sample_views(samples: Seq<Mp4Sample>) -> Seq<SampleView> {
    samples.map_values(|x: Mp4Sample| x@)
}

// ---------------------------------------------------------------------------
// Byte-level description of the boxes.

/// `n` zero bytes.
pub open spec fn zeros(n: nat) -> Seq<u8> {
    Seq::new(n, |i: int| 0u8)
}

/// A box: 32-bit size (header included, modulo 2^32), type, content.
pub open spec fn mp4_box(fourcc: u32, content: Seq<u8>) -> Seq<u8> {
    be32_bytes(((content.len() + 8) % 0x1_0000_0000) as int) + be32_bytes(fourcc as int) + content
}

/// A full box: a box whose content starts with version (8 bits) and flags (24 bits).
pub open spec fn full_box(fourcc: u32, version: u8, flags: u32, content: Seq<u8>) -> Seq<u8> {
    mp4_box(fourcc, be32_bytes(version * 16777216 + flags % 16777216) + content)
}

/// Big-endian encoding of each value, concatenated.
pub open spec fn be32_list(values: Seq<u32>) -> Seq<u8>
    decreases values.len(),
{
    if values.len() == 0 {
        Seq::empty()
    } else {
        be32_list(values.drop_last()) + be32_bytes(values.last() as int)
    }
}

/// A 32-bit duration field: the duration, capped at `u32::MAX`.
pub open spec fn capped32(d: u64) -> int {
    if d > 0xFFFF_FFFF { 0xFFFF_FFFF } else { d as int }
}

pub open spec fn identity_matrix() -> Seq<u8> {
    be32_list(seq![0x0001_0000u32, 0, 0, 0, 0x0001_0000, 0, 0, 0, 0x4000_0000])
}

pub open spec fn ftyp_box() -> Seq<u8> {
    mp4_box(FTYP, be32_bytes(ISOM as int) + be32_bytes(0x200) + be32_bytes(ISOM as int)
        + be32_bytes(ISO6 as int) + be32_bytes(AVC1 as int) + be32_bytes(MP41 as int))
}

pub open spec fn mvhd_box(timescale: u32, duration: u64) -> Seq<u8> {
    full_box(MVHD, 0, 0, be32_bytes(0) + be32_bytes(0) + be32_bytes(timescale as int)
        + be32_bytes(capped32(duration)) + be32_bytes(0x0001_0000) + be16_bytes(0x0100)
        + zeros(10) + identity_matrix() + zeros(24) + be32_bytes(2))
}

pub open spec fn tkhd_box(duration: u64, width: u32, height: u32) -> Seq<u8> {
    full_box(TKHD, 0, 3, be32_bytes(0) + be32_bytes(0) + be32_bytes(TRACK_ID as int)
        + be32_bytes(0) + be32_bytes(capped32(duration)) + zeros(8) + be16_bytes(0)
        + be16_bytes(0) + be16_bytes(0) + be16_bytes(0) + identity_matrix()
        + be32_bytes((width % 65536) * 65536) + be32_bytes((height % 65536) * 65536))
}

pub open spec fn mdhd_box(timescale: u32, duration: u64) -> Seq<u8> {
    full_box(MDHD, 0, 0, be32_bytes(0) + be32_bytes(0) + be32_bytes(timescale as int)
        + be32_bytes(capped32(duration)) + be16_bytes(0x55C4) + be16_bytes(0))
}

/// "VideoHandler" followed by a NUL byte.
pub open spec fn handler_name() -> Seq<u8> {
    be32_bytes(0x5669_6465) + be32_bytes(0x6f48_616e) + be32_bytes(0x646c_6572) + seq![0u8]
}

pub open spec fn hdlr_box() -> Seq<u8> {
    full_box(HDLR, 0, 0, be32_bytes(0) + be32_bytes(VIDE as int) + zeros(12) + handler_name())
}

pub open spec fn vmhd_box() -> Seq<u8> {
    full_box(VMHD, 0, 1, be16_bytes(0) + zeros(6))
}

pub open spec fn dinf_box() -> Seq<u8> {
    mp4_box(DINF, full_box(DREF, 0, 0, be32_bytes(1) + full_box(URL_, 0, 1, Seq::empty())))
}

/// Byte `i` of the SPS, or `default` when the SPS is shorter.
pub open spec fn sps_byte(sps: Seq<u8>, i: int, default: u8) -> u8 {
    if i < sps.len() { sps[i] } else { default }
}

pub open spec fn avcc_record(sps: Seq<u8>, pps: Seq<u8>) -> Seq<u8> {
    seq![1u8, sps_byte(sps, 1, 0x42), sps_byte(sps, 2, 0x00), sps_byte(sps, 3, 0x1E), 0xFFu8, 0xE1u8]
        + be16_bytes((sps.len() as u16) as int) + sps + seq![1u8]
        + be16_bytes((pps.len() as u16) as int) + pps
}

pub open spec fn avc1_entry(width: u32, height: u32, sps: Seq<u8>, pps: Seq<u8>) -> Seq<u8> {
    mp4_box(AVC1, zeros(6) + be16_bytes(1) + be16_bytes(0) + be16_bytes(0) + zeros(12)
        + be16_bytes((width as u16) as int) + be16_bytes((height as u16) as int)
        + be32_bytes(0x0048_0000) + be32_bytes(0x0048_0000) + be32_bytes(0) + be16_bytes(1)
        + zeros(32) + be16_bytes(0x0018) + be16_bytes(0xFFFF)
        + mp4_box(AVCC, avcc_record(sps, pps)))
}

pub open spec fn stsd_box(width: u32, height: u32, sps: Seq<u8>, pps: Seq<u8>) -> Seq<u8> {
    full_box(STSD, 0, 0, be32_bytes(1) + avc1_entry(width, height, sps, pps))
}

pub open spec fn stts_box(sample_count: u32, sample_delta: u32) -> Seq<u8> {
    full_box(STTS, 0, 0, be32_bytes(1) + be32_bytes(sample_count as int) + be32_bytes(sample_delta as int))
}

pub open spec fn empty_stts_box() -> Seq<u8> {
    full_box(STTS, 0, 0, be32_bytes(0))
}

pub open spec fn stsc_box(sample_count: u32) -> Seq<u8> {
    full_box(STSC, 0, 0, be32_bytes(1) + be32_bytes(1) + be32_bytes(sample_count as int) + be32_bytes(1))
}

pub open spec fn empty_stsc_box() -> Seq<u8> {
    full_box(STSC, 0, 0, be32_bytes(0))
}

pub open spec fn stsz_box(sizes: Seq<u32>) -> Seq<u8> {
    full_box(STSZ, 0, 0, be32_bytes(0) + be32_bytes((sizes.len() as u32) as int) + be32_list(sizes))
}

pub open spec fn empty_stsz_box() -> Seq<u8> {
    full_box(STSZ, 0, 0, be32_bytes(0) + be32_bytes(0))
}

pub open spec fn co64_box(offset: u64) -> Seq<u8> {
    full_box(CO64, 0, 0, be32_bytes(1) + be64_bytes(offset as int))
}

pub open spec fn empty_stco_box() -> Seq<u8> {
    full_box(STCO, 0, 0, be32_bytes(0))
}

pub open spec fn stss_box(indices: Seq<u32>) -> Seq<u8> {
    full_box(STSS, 0, 0, be32_bytes((indices.len() as u32) as int) + be32_list(indices))
}

// ---------------------------------------------------------------------------
// Writers for the boxes.

fn push_zeros(buf: &mut Vec<u8>, n: usize)
    ensures
        final(buf)@ == old(buf)@ + zeros(n as nat),
{
    let mut i: usize = 0;
    while i < n
        invariant
            i <= n,
            buf@ == old(buf)@ + zeros(i as nat),
        decreases n - i,
    {
        buf.push(0);
        i += 1;
        assert(zeros(i as nat) =~= zeros((i - 1) as nat) + seq![0u8]);
    }
}

fn write_box(buf: &mut Vec<u8>, fourcc: u32, content: &Vec<u8>)
    ensures
        final(buf)@ == old(buf)@ + mp4_box(fourcc, content@),
{
    let size = ((content.len() as u128 + 8) % 0x1_0000_0000) as u32;
    push_be32(buf, size);
    push_be32(buf, fourcc);
    push_all(buf, content.as_slice());
    assert(buf@ =~= old(buf)@ + mp4_box(fourcc, content@));
}

fn write_full_box(buf: &mut Vec<u8>, fourcc: u32, version: u8, flags: u32, content: &Vec<u8>)
    ensures
        final(buf)@ == old(buf)@ + full_box(fourcc, version, flags, content@),
{
    let mut inner: Vec<u8> = Vec::new();
    push_be32(&mut inner, (version as u32) * 16777216 + flags % 16777216);
    push_all(&mut inner, content.as_slice());
    assert(inner@ =~= be32_bytes(version * 16777216 + flags % 16777216) + content@);
    write_box(buf, fourcc, &inner);
}

fn write_be32_list(buf: &mut Vec<u8>, values: &[u32])
    ensures
        final(buf)@ == old(buf)@ + be32_list(values@),
{
    let mut i: usize = 0;
    while i < values.len()
        invariant
            i <= values@.len(),
            buf@ == old(buf)@ + be32_list(values@.subrange(0, i as int)),
        decreases values@.len() - i,
    {
        push_be32(buf, values[i]);
        i += 1;
        assert(values@.subrange(0, i as int).drop_last() =~= values@.subrange(0, i - 1));
        assert(buf@ =~= old(buf)@ + be32_list(values@.subrange(0, i as int)));
    }
    assert(values@.subrange(0, i as int) =~= values@);
}

fn write_identity_matrix(buf: &mut Vec<u8>)
    ensures
        final(buf)@ == old(buf)@ + identity_matrix(),
{
    let m: [u32; 9] = [0x0001_0000, 0, 0, 0, 0x0001_0000, 0, 0, 0, 0x4000_0000];
    write_be32_list(buf, &m);
    assert(m@ =~= seq![0x0001_0000u32, 0, 0, 0, 0x0001_0000, 0, 0, 0, 0x4000_0000]);
}

fn capped_duration(d: u64) -> (r: u32)
    ensures
        r == capped32(d),
{
    if d > 0xFFFF_FFFF { 0xFFFF_FFFF } else { d as u32 }
}

fn write_ftyp(buf: &mut Vec<u8>)
    ensures
        final(buf)@ == old(buf)@ + ftyp_box(),
{
    let mut b: Vec<u8> = Vec::new();
    push_be32(&mut b, ISOM);
    push_be32(&mut b, 0x200);
    push_be32(&mut b, ISOM);
    push_be32(&mut b, ISO6);
    push_be32(&mut b, AVC1);
    push_be32(&mut b, MP41);
    assert(b@ =~= be32_bytes(ISOM as int) + be32_bytes(0x200) + be32_bytes(ISOM as int)
        + be32_bytes(ISO6 as int) + be32_bytes(AVC1 as int) + be32_bytes(MP41 as int));
    write_box(buf, FTYP, &b);
}

fn write_mvhd(buf: &mut Vec<u8>, timescale: u32, duration: u64)
    ensures
        final(buf)@ == old(buf)@ + mvhd_box(timescale, duration),
{
    let mut b: Vec<u8> = Vec::new();
    push_be32(&mut b, 0);
    push_be32(&mut b, 0);
    push_be32(&mut b, timescale);
    push_be32(&mut b, capped_duration(duration));
    push_be32(&mut b, 0x0001_0000);
    push_be16(&mut b, 0x0100);
    push_zeros(&mut b, 10);
    write_identity_matrix(&mut b);
    push_zeros(&mut b, 24);
    push_be32(&mut b, 2);
    assert(b@ =~= be32_bytes(0) + be32_bytes(0) + be32_bytes(timescale as int)
        + be32_bytes(capped32(duration)) + be32_bytes(0x0001_0000) + be16_bytes(0x0100)
        + zeros(10) + identity_matrix() + zeros(24) + be32_bytes(2));
    write_full_box(buf, MVHD, 0, 0, &b);
}

fn write_tkhd(buf: &mut Vec<u8>, duration: u64, width: u32, height: u32)
    ensures
        final(buf)@ == old(buf)@ + tkhd_box(duration, width, height),
{
    let mut b: Vec<u8> = Vec::new();
    push_be32(&mut b, 0);
    push_be32(&mut b, 0);
    push_be32(&mut b, TRACK_ID);
    push_be32(&mut b, 0);
    push_be32(&mut b, capped_duration(duration));
    push_zeros(&mut b, 8);
    push_be16(&mut b, 0);
    push_be16(&mut b, 0);
    push_be16(&mut b, 0);
    push_be16(&mut b, 0);
    write_identity_matrix(&mut b);
    push_be32(&mut b, (width % 65536) * 65536);
    push_be32(&mut b, (height % 65536) * 65536);
    assert(b@ =~= be32_bytes(0) + be32_bytes(0) + be32_bytes(TRACK_ID as int)
        + be32_bytes(0) + be32_bytes(capped32(duration)) + zeros(8) + be16_bytes(0)
        + be16_bytes(0) + be16_bytes(0) + be16_bytes(0) + identity_matrix()
        + be32_bytes((width % 65536) * 65536) + be32_bytes((height % 65536) * 65536));
    write_full_box(buf, TKHD, 0, 3, &b);
}

fn write_mdhd(buf: &mut Vec<u8>, timescale: u32, duration: u64)
    ensures
        final(buf)@ == old(buf)@ + mdhd_box(timescale, duration),
{
    let mut b: Vec<u8> = Vec::new();
    push_be32(&mut b, 0);
    push_be32(&mut b, 0);
    push_be32(&mut b, timescale);
    push_be32(&mut b, capped_duration(duration));
    push_be16(&mut b, 0x55C4);
    push_be16(&mut b, 0);
    assert(b@ =~= be32_bytes(0) + be32_bytes(0) + be32_bytes(timescale as int)
        + be32_bytes(capped32(duration)) + be16_bytes(0x55C4) + be16_bytes(0));
    write_full_box(buf, MDHD, 0, 0, &b);
}

fn write_hdlr(buf: &mut Vec<u8>)
    ensures
        final(buf)@ == old(buf)@ + hdlr_box(),
{
    let mut b: Vec<u8> = Vec::new();
    push_be32(&mut b, 0);
    push_be32(&mut b, VIDE);
    push_zeros(&mut b, 12);
    push_be32(&mut b, 0x5669_6465);
    push_be32(&mut b, 0x6f48_616e);
    push_be32(&mut b, 0x646c_6572);
    b.push(0);
    assert(b@ =~= be32_bytes(0) + be32_bytes(VIDE as int) + zeros(12) + handler_name());
    write_full_box(buf, HDLR, 0, 0, &b);
}

fn write_vmhd(buf: &mut Vec<u8>)
    ensures
        final(buf)@ == old(buf)@ + vmhd_box(),
{
    let mut b: Vec<u8> = Vec::new();
    push_be16(&mut b, 0);
    push_zeros(&mut b, 6);
    write_full_box(buf, VMHD, 0, 1, &b);
}

fn write_dinf(buf: &mut Vec<u8>)
    ensures
        final(buf)@ == old(buf)@ + dinf_box(),
{
    let empty: Vec<u8> = Vec::new();
    let mut dref: Vec<u8> = Vec::new();
    push_be32(&mut dref, 1);
    write_full_box(&mut dref, URL_, 0, 1, &empty);
    let mut dinf: Vec<u8> = Vec::new();
    write_full_box(&mut dinf, DREF, 0, 0, &dref);
    assert(dinf@ =~= full_box(DREF, 0, 0, be32_bytes(1) + full_box(URL_, 0, 1, Seq::empty())));
    write_box(buf, DINF, &dinf);
}

fn sps_byte_or(sps: &Vec<u8>, i: usize, default: u8) -> (r: u8)
    ensures
        r == sps_byte(sps@, i as int, default),
{
    if i < sps.len() { sps[i] } else { default }
}

fn write_stsd(buf: &mut Vec<u8>, config: &Mp4TrackConfig)
    ensures
        final(buf)@ == old(buf)@ + stsd_box(config.width, config.height, config.sps@, config.pps@),
{
    let mut avcc: Vec<u8> = Vec::new();
    avcc.push(1);
    avcc.push(sps_byte_or(&config.sps, 1, 0x42));
    avcc.push(sps_byte_or(&config.sps, 2, 0x00));
    avcc.push(sps_byte_or(&config.sps, 3, 0x1E));
    avcc.push(0xFF);
    avcc.push(0xE1);
    push_be16(&mut avcc, #[verifier::truncate] (config.sps.len() as u16));
    push_all(&mut avcc, config.sps.as_slice());
    avcc.push(1);
    push_be16(&mut avcc, #[verifier::truncate] (config.pps.len() as u16));
    push_all(&mut avcc, config.pps.as_slice());
    assert(avcc@ =~= avcc_record(config.sps@, config.pps@));

    let mut entry: Vec<u8> = Vec::new();
    push_zeros(&mut entry, 6);
    push_be16(&mut entry, 1);
    push_be16(&mut entry, 0);
    push_be16(&mut entry, 0);
    push_zeros(&mut entry, 12);
    push_be16(&mut entry, #[verifier::truncate] (config.width as u16));
    push_be16(&mut entry, #[verifier::truncate] (config.height as u16));
    push_be32(&mut entry, 0x0048_0000);
    push_be32(&mut entry, 0x0048_0000);
    push_be32(&mut entry, 0);
    push_be16(&mut entry, 1);
    push_zeros(&mut entry, 32);
    push_be16(&mut entry, 0x0018);
    push_be16(&mut entry, 0xFFFF);
    write_box(&mut entry, AVCC, &avcc);
    assert(entry@ =~= zeros(6) + be16_bytes(1) + be16_bytes(0) + be16_bytes(0) + zeros(12)
        + be16_bytes((config.width as u16) as int) + be16_bytes((config.height as u16) as int)
        + be32_bytes(0x0048_0000) + be32_bytes(0x0048_0000) + be32_bytes(0) + be16_bytes(1)
        + zeros(32) + be16_bytes(0x0018) + be16_bytes(0xFFFF)
        + mp4_box(AVCC, avcc_record(config.sps@, config.pps@)));

    let mut stsd: Vec<u8> = Vec::new();
    push_be32(&mut stsd, 1);
    write_box(&mut stsd, AVC1, &entry);
    assert(stsd@ =~= be32_bytes(1) + avc1_entry(config.width, config.height, config.sps@, config.pps@));
    write_full_box(buf, STSD, 0, 0, &stsd);
}

fn write_stts(buf: &mut Vec<u8>, sample_count: u32, sample_delta: u32)
    ensures
        final(buf)@ == old(buf)@ + stts_box(sample_count, sample_delta),
{
    let mut b: Vec<u8> = Vec::new();
    push_be32(&mut b, 1);
    push_be32(&mut b, sample_count);
    push_be32(&mut b, sample_delta);
    assert(b@ =~= be32_bytes(1) + be32_bytes(sample_count as int) + be32_bytes(sample_delta as int));
    write_full_box(buf, STTS, 0, 0, &b);
}

fn write_empty_stts(buf: &mut Vec<u8>)
    ensures
        final(buf)@ == old(buf)@ + empty_stts_box(),
{
    let mut b: Vec<u8> = Vec::new();
    push_be32(&mut b, 0);
    write_full_box(buf, STTS, 0, 0, &b);
}

fn write_stsc(buf: &mut Vec<u8>, sample_count: u32)
    ensures
        final(buf)@ == old(buf)@ + stsc_box(sample_count),
{
    let mut b: Vec<u8> = Vec::new();
    push_be32(&mut b, 1);
    push_be32(&mut b, 1);
    push_be32(&mut b, sample_count);
    push_be32(&mut b, 1);
    assert(b@ =~= be32_bytes(1) + be32_bytes(1) + be32_bytes(sample_count as int) + be32_bytes(1));
    write_full_box(buf, STSC, 0, 0, &b);
}

fn write_empty_stsc(buf: &mut Vec<u8>)
    ensures
        final(buf)@ == old(buf)@ + empty_stsc_box(),
{
    let mut b: Vec<u8> = Vec::new();
    push_be32(&mut b, 0);
    write_full_box(buf, STSC, 0, 0, &b);
}

fn write_stsz(buf: &mut Vec<u8>, sample_sizes: &[u32])
    ensures
        final(buf)@ == old(buf)@ + stsz_box(sample_sizes@),
{
    let mut b: Vec<u8> = Vec::new();
    push_be32(&mut b, 0);
    push_be32(&mut b, #[verifier::truncate] (sample_sizes.len() as u32));
    write_be32_list(&mut b, sample_sizes);
    assert(b@ =~= be32_bytes(0) + be32_bytes((sample_sizes@.len() as u32) as int) + be32_list(sample_sizes@));
    write_full_box(buf, STSZ, 0, 0, &b);
}

fn write_empty_stsz(buf: &mut Vec<u8>)
    ensures
        final(buf)@ == old(buf)@ + empty_stsz_box(),
{
    let mut b: Vec<u8> = Vec::new();
    push_be32(&mut b, 0);
    push_be32(&mut b, 0);
    write_full_box(buf, STSZ, 0, 0, &b);
}

fn write_co64(buf: &mut Vec<u8>, offset: u64)
    ensures
        final(buf)@ == old(buf)@ + co64_box(offset),
{
    let mut b: Vec<u8> = Vec::new();
    push_be32(&mut b, 1);
    push_be64(&mut b, offset);
    write_full_box(buf, CO64, 0, 0, &b);
}

fn write_empty_stco(buf: &mut Vec<u8>)
    ensures
        final(buf)@ == old(buf)@ + empty_stco_box(),
{
    let mut b: Vec<u8> = Vec::new();
    push_be32(&mut b, 0);
    write_full_box(buf, STCO, 0, 0, &b);
}

fn write_stss(buf: &mut Vec<u8>, keyframe_indices: &[u32])
    ensures
        final(buf)@ == old(buf)@ + stss_box(keyframe_indices@),
{
    let mut b: Vec<u8> = Vec::new();
    push_be32(&mut b, #[verifier::truncate] (keyframe_indices.len() as u32));
    write_be32_list(&mut b, keyframe_indices);
    write_full_box(buf, STSS, 0, 0, &b);
}


// ---------------------------------------------------------------------------
// Movie header, whole files and fragments.

/// Per-sample sizes as written in `stsz` (lengths truncated to 32 bits).
pub open spec fn sample_sizes(samples: Seq<SampleView>) -> Seq<u32> {
    Seq::new(samples.len(), |i: int| samples[i].data.len() as u32)
}

/// One-based numbers of the keyframe samples, in increasing order.
pub open spec fn keyframe_numbers(samples: Seq<SampleView>) -> Seq<u32>
    decreases samples.len(),
{
    if samples.len() == 0 {
        Seq::empty()
    } else {
        keyframe_numbers(samples.drop_last()) + if samples.last().is_keyframe {
            seq![samples.len() as u32]
        } else {
            Seq::empty()
        }
    }
}

/// Sum of the given 32-bit sizes.
pub open spec fn sum_sizes(sizes: Seq<u32>) -> int
    decreases sizes.len(),
{
    if sizes.len() == 0 {
        0
    } else {
        sum_sizes(sizes.drop_last()) + sizes.last()
    }
}

/// Total number of sample bytes.
pub open spec fn payload_len(samples: Seq<SampleView>) -> int
    decreases samples.len(),
{
    if samples.len() == 0 {
        0
    } else {
        payload_len(samples.drop_last()) + samples.last().data.len()
    }
}

/// All sample bytes, in order.
pub open spec fn payload(samples: Seq<SampleView>) -> Seq<u8>
    decreases samples.len(),
{
    if samples.len() == 0 {
        Seq::empty()
    } else {
        payload(samples.drop_last()) + samples.last().data
    }
}

/// `mdat` header for a payload of the given size: the 64-bit large-size form
/// when the 32-bit size would not hold it.
pub open spec fn mdat_header(payload_size: int) -> Seq<u8> {
    if payload_size + 8 > 0xFFFF_FFFF {
        be32_bytes(1) + be32_bytes(MDAT as int) + be64_bytes(payload_size + 16)
    } else {
        be32_bytes(payload_size + 8) + be32_bytes(MDAT as int)
    }
}

/// Sample tables of a complete file: one chunk holding every sample.
#[verifier::opaque]
pub open spec fn sample_tables(sample_delta: u32, sizes: Seq<u32>, keys: Seq<u32>, chunk_offset: u64) -> Seq<u8> {
    stts_box(sizes.len() as u32, sample_delta) + stsc_box(sizes.len() as u32) + stsz_box(sizes)
        + co64_box(chunk_offset) + if keys.len() > 0 {
        stss_box(keys)
    } else {
        Seq::empty()
    }
}

/// Sample tables of a fragmented file's init segment: all empty.
pub open spec fn empty_sample_tables() -> Seq<u8> {
    empty_stts_box() + empty_stsc_box() + empty_stsz_box() + empty_stco_box()
}

pub open spec fn mvex_box(sample_delta: u32) -> Seq<u8> {
    mp4_box(MVEX, full_box(TREX, 0, 0, be32_bytes(TRACK_ID as int) + be32_bytes(1)
        + be32_bytes(sample_delta as int) + be32_bytes(0) + be32_bytes(NON_SYNC_SAMPLE_FLAGS as int)))
}

/// The `moov` box around the given sample tables.
#[verifier::opaque]
pub open spec fn moov_box(cfg: TrackParams, duration: u64, tables: Seq<u8>, fragmented: bool) -> Seq<u8> {
    mp4_box(MOOV, mvhd_box(cfg.timescale, duration)
        + mp4_box(TRAK, tkhd_box(duration, cfg.width, cfg.height)
            + mp4_box(MDIA, mdhd_box(cfg.timescale, duration) + hdlr_box()
                + mp4_box(MINF, vmhd_box() + dinf_box()
                    + mp4_box(STBL, stsd_box(cfg.width, cfg.height, cfg.sps, cfg.pps) + tables))))
        + if fragmented { mvex_box(cfg.sample_delta) } else { Seq::empty() })
}

/// Track duration of a complete file, in timescale units.
pub open spec fn track_duration(cfg: TrackParams, samples: Seq<SampleView>) -> u64 {
    (cfg.sample_delta * samples.len()) as u64
}

/// Length of the `mdat` header for the given payload size.
pub open spec fn mdat_header_len(payload_size: int) -> int {
    if payload_size + 8 > 0xFFFF_FFFF { 16 } else { 8 }
}

/// The chunk offset a complete file records: the byte position just past
/// `ftyp`, `moov` and the `mdat` header (modulo 2^64).
#[verifier::opaque]
pub open spec fn mp4_chunk_offset(cfg: TrackParams, samples: Seq<SampleView>) -> u64 {
    let sizes = sample_sizes(samples);
    let keys = keyframe_numbers(samples);
    let placeholder = moov_box(cfg, track_duration(cfg, samples), sample_tables(cfg.sample_delta, sizes, keys, 0), false);
    ((ftyp_box().len() + placeholder.len() + mdat_header_len(sum_sizes(sizes))) % 0x1_0000_0000_0000_0000) as u64
}

/// A complete (non-fragmented) MP4 file holding `samples`.
#[verifier::opaque]
pub open spec fn mp4_file(cfg: TrackParams, samples: Seq<SampleView>) -> Seq<u8> {
    let sizes = sample_sizes(samples);
    let keys = keyframe_numbers(samples);
    ftyp_box() + moov_box(cfg, track_duration(cfg, samples),
        sample_tables(cfg.sample_delta, sizes, keys, mp4_chunk_offset(cfg, samples)), false)
        + mdat_header(sum_sizes(sizes)) + payload(samples)
}

/// The initialization segment of a fragmented MP4 file.
pub open spec fn fmp4_init(cfg: TrackParams) -> Seq<u8> {
    ftyp_box() + moov_box(cfg, 0, empty_sample_tables(), true)
}

/// `trun` sample flags for a sample.
pub open spec fn flags_of(sample: SampleView) -> u32 {
    if sample.is_keyframe { SYNC_SAMPLE_FLAGS } else { NON_SYNC_SAMPLE_FLAGS }
}

/// Per-sample `trun` entries: duration, size and flags.
pub open spec fn trun_entries(samples: Seq<SampleView>, sample_delta: u32) -> Seq<u8>
    decreases samples.len(),
{
    if samples.len() == 0 {
        Seq::empty()
    } else {
        trun_entries(samples.drop_last(), sample_delta) + be32_bytes(sample_delta as int)
            + be32_bytes((samples.last().data.len() as u32) as int)
            + be32_bytes(flags_of(samples.last()) as int)
    }
}

/// The `moof` box of a media segment whose `trun` data offset is `data_offset`.
#[verifier::opaque]
pub open spec fn moof_box(samples: Seq<SampleView>, sample_delta: u32, sequence_number: u32,
    base_decode_time: u64, data_offset: int) -> Seq<u8> {
    mp4_box(MOOF, full_box(MFHD, 0, 0, be32_bytes(sequence_number as int))
        + mp4_box(TRAF, full_box(TFHD, 0, 0x020000, be32_bytes(TRACK_ID as int))
            + full_box(TFDT, 1, 0, be64_bytes(base_decode_time as int))
            + full_box(TRUN, 0, 0x000701, be32_bytes((samples.len() as u32) as int)
                + be32_bytes(data_offset) + trun_entries(samples, sample_delta))))
}

/// The `trun` data offset of a media segment: from the start of `moof` to
/// the first sample byte, modulo 2^32.
pub open spec fn segment_data_offset(samples: Seq<SampleView>, sample_delta: u32, sequence_number: u32,
    base_decode_time: u64) -> int {
    ((moof_box(samples, sample_delta, sequence_number, base_decode_time, 0).len() + 8) % 0x1_0000_0000) as int
}

/// A media segment (`moof` + `mdat`) holding `samples`.
#[verifier::opaque]
pub open spec fn fmp4_segment(cfg: TrackParams, samples: Seq<SampleView>, sequence_number: u32,
    base_decode_time: u64) -> Seq<u8> {
    moof_box(samples, cfg.sample_delta, sequence_number, base_decode_time,
        segment_data_offset(samples, cfg.sample_delta, sequence_number, base_decode_time))
        + mdat_header(payload_len(samples)) + payload(samples)
}

fn write_mdat_header(buf: &mut Vec<u8>, payload_size: u64)
    requires
        payload_size + 16 <= u64::MAX,
    ensures
        final(buf)@ == old(buf)@ + mdat_header(payload_size as int),
{
    if payload_size + 8 > 0xFFFF_FFFF {
        push_be32(buf, 1);
        push_be32(buf, MDAT);
        push_be64(buf, payload_size + 16);
    } else {
        push_be32(buf, payload_size as u32 + 8);
        push_be32(buf, MDAT);
    }
}

fn sample_flags(sample: &Mp4Sample) -> (r: u32)
    ensures
        r == flags_of(sample@),
{
    if sample.is_keyframe {
        SYNC_SAMPLE_FLAGS
    } else {
        NON_SYNC_SAMPLE_FLAGS
    }
}

fn build_moov(
    config: &Mp4TrackConfig,
    total_duration: u64,
    tables: &Vec<u8>,
    fragmented: bool,
) -> (out: Vec<u8>)
    ensures
        out@ == moov_box(config@, total_duration, tables@, fragmented),
{
    let mut stbl: Vec<u8> = Vec::new();
    write_stsd(&mut stbl, config);
    push_all(&mut stbl, tables.as_slice());
    let mut minf: Vec<u8> = Vec::new();
    write_vmhd(&mut minf);
    write_dinf(&mut minf);
    write_box(&mut minf, STBL, &stbl);
    let mut mdia: Vec<u8> = Vec::new();
    write_mdhd(&mut mdia, config.timescale, total_duration);
    write_hdlr(&mut mdia);
    write_box(&mut mdia, MINF, &minf);
    let mut trak: Vec<u8> = Vec::new();
    write_tkhd(&mut trak, total_duration, config.width, config.height);
    write_box(&mut trak, MDIA, &mdia);
    let mut moov: Vec<u8> = Vec::new();
    write_mvhd(&mut moov, config.timescale, total_duration);
    write_box(&mut moov, TRAK, &trak);
    if fragmented {
        let mut trex: Vec<u8> = Vec::new();
        push_be32(&mut trex, TRACK_ID);
        push_be32(&mut trex, 1);
        push_be32(&mut trex, config.sample_delta);
        push_be32(&mut trex, 0);
        push_be32(&mut trex, NON_SYNC_SAMPLE_FLAGS);
        let mut mvex: Vec<u8> = Vec::new();
        write_full_box(&mut mvex, TREX, 0, 0, &trex);
        assert(trex@ =~= be32_bytes(TRACK_ID as int) + be32_bytes(1)
            + be32_bytes(config.sample_delta as int) + be32_bytes(0) + be32_bytes(NON_SYNC_SAMPLE_FLAGS as int));
        write_box(&mut moov, MVEX, &mvex);
    }
    assert(stbl@ =~= stsd_box(config.width, config.height, config.sps@, config.pps@) + tables@);
    assert(minf@ =~= vmhd_box() + dinf_box() + mp4_box(STBL, stbl@));
    assert(mdia@ =~= mdhd_box(config.timescale, total_duration) + hdlr_box() + mp4_box(MINF, minf@));
    assert(trak@ =~= tkhd_box(total_duration, config.width, config.height) + mp4_box(MDIA, mdia@));
    assert(moov@ =~= mvhd_box(config.timescale, total_duration) + mp4_box(TRAK, trak@)
        + if fragmented { mvex_box(config.sample_delta) } else { Seq::empty() });
    let mut out: Vec<u8> = Vec::new();
    write_box(&mut out, MOOV, &moov);
    reveal(moov_box);
    assert(out@ =~= moov_box(config@, total_duration, tables@, fragmented));
    out
}

fn write_sample_tables(buf: &mut Vec<u8>, sample_delta: u32, sample_sizes: &[u32],
    keyframe_indices: &[u32], chunk_offset: u64)
    ensures
        final(buf)@ == old(buf)@ + sample_tables(sample_delta, sample_sizes@, keyframe_indices@, chunk_offset),
{
    let n = #[verifier::truncate] (sample_sizes.len() as u32);
    let mut t: Vec<u8> = Vec::new();
    write_stts(&mut t, n, sample_delta);
    write_stsc(&mut t, n);
    write_stsz(&mut t, sample_sizes);
    write_co64(&mut t, chunk_offset);
    let ghost head = t@;
    if keyframe_indices.len() > 0 {
        write_stss(&mut t, keyframe_indices);
    }
    proof {
        reveal(sample_tables);
        assert(head =~= stts_box(sample_sizes@.len() as u32, sample_delta) + stsc_box(sample_sizes@.len() as u32)
            + stsz_box(sample_sizes@) + co64_box(chunk_offset));
        assert(t@ =~= sample_tables(sample_delta, sample_sizes@, keyframe_indices@, chunk_offset));
    }
    push_all(buf, t.as_slice());
}

fn write_empty_sample_tables(buf: &mut Vec<u8>)
    ensures
        final(buf)@ == old(buf)@ + empty_sample_tables(),
{
    write_empty_stts(buf);
    write_empty_stsc(buf);
    write_empty_stsz(buf);
    write_empty_stco(buf);
    assert(buf@ =~= old(buf)@ + empty_sample_tables());
}

fn write_payload(buf: &mut Vec<u8>, samples: &[Mp4Sample])
    ensures
        final(buf)@ == old(buf)@ + payload(sample_views(samples@)),
{
    let mut i: usize = 0;
    while i < samples.len()
        invariant
            i <= samples@.len(),
            buf@ == old(buf)@ + payload(sample_views(samples@).subrange(0, i as int)),
        decreases samples@.len() - i,
    {
        push_all(buf, samples[i].data.as_slice());
        i += 1;
        assert(sample_views(samples@).subrange(0, i as int).drop_last() =~= sample_views(samples@).subrange(0, i - 1));
        assert(buf@ =~= old(buf)@ + payload(sample_views(samples@).subrange(0, i as int)));
    }
    assert(sample_views(samples@).subrange(0, i as int) =~= sample_views(samples@));
}

proof fn lemma_sum_sizes_bound(sizes: Seq<u32>)
    ensures
        0 <= sum_sizes(sizes) <= sizes.len() * 0xFFFF_FFFF,
    decreases sizes.len(),
{
    if sizes.len() > 0 {
        lemma_sum_sizes_bound(sizes.drop_last());
    }
}

/// Builds a complete MP4 file: `ftyp`, `moov` with full sample tables, and
/// one `mdat` holding every sample.
pub fn build_mp4(config: &Mp4TrackConfig, samples: &[Mp4Sample]) -> (out: Vec<u8>)
    requires
        config.sample_delta * samples@.len() <= u64::MAX,
        sum_sizes(sample_sizes(sample_views(samples@))) + 16 <= u64::MAX,
    ensures
        out@ == mp4_file(config@, sample_views(samples@)),
{
    let ghost ss = sample_views(samples@);
    let mut sizes: Vec<u32> = Vec::new();
    let mut keys: Vec<u32> = Vec::new();
    let mut total_mdat_payload: u64 = 0;
    let mut i: usize = 0;
    while i < samples.len()
        invariant
            i <= ss.len(),
            ss == sample_views(samples@),
            sum_sizes(sample_sizes(ss)) + 16 <= u64::MAX,
            sizes@ == sample_sizes(ss).subrange(0, i as int),
            keys@ == keyframe_numbers(ss.subrange(0, i as int)),
            total_mdat_payload == sum_sizes(sizes@),
        decreases ss.len() - i,
    {
        let size = #[verifier::truncate] (samples[i].data.len() as u32);
        proof {
            assert(sample_sizes(ss).subrange(0, i + 1).drop_last() =~= sample_sizes(ss).subrange(0, i as int));
            lemma_sum_prefix(sample_sizes(ss), i + 1);
        }
        sizes.push(size);
        total_mdat_payload = total_mdat_payload + size as u64;
        if samples[i].is_keyframe {
            keys.push(#[verifier::truncate] ((i + 1) as u32));
        }
        i += 1;
        proof {
            assert(sizes@ =~= sample_sizes(ss).subrange(0, i as int));
            let pre = ss.subrange(0, i as int);
            assert(pre.drop_last() =~= ss.subrange(0, i - 1));
            assert(keys@ =~= keyframe_numbers(pre));
            assert(sizes@.drop_last() =~= sample_sizes(ss).subrange(0, i - 1));
        }
    }
    proof {
        assert(ss.subrange(0, i as int) =~= ss);
        assert(sizes@ =~= sample_sizes(ss));
    }
    let total_duration = config.sample_delta as u64 * samples.len() as u64;

    let mut out: Vec<u8> = Vec::new();
    write_ftyp(&mut out);

    let mut tables0: Vec<u8> = Vec::new();
    write_sample_tables(&mut tables0, config.sample_delta, sizes.as_slice(), keys.as_slice(), 0);
    let placeholder_moov = build_moov(config, total_duration, &tables0, false);
    let mdat_header_size: u64 = if total_mdat_payload + 8 > 0xFFFF_FFFF { 16 } else { 8 };
    let chunk_offset = ((out.len() as u128 + placeholder_moov.len() as u128 + mdat_header_size as u128)
        % 0x1_0000_0000_0000_0000) as u64;

    let mut tables: Vec<u8> = Vec::new();
    write_sample_tables(&mut tables, config.sample_delta, sizes.as_slice(), keys.as_slice(), chunk_offset);
    let moov = build_moov(config, total_duration, &tables, false);
    push_all(&mut out, moov.as_slice());
    write_mdat_header(&mut out, total_mdat_payload);
    write_payload(&mut out, samples);
    proof {
        assert(total_duration == track_duration(config@, sample_views(samples@)));
        reveal(mp4_chunk_offset);
        assert(chunk_offset == mp4_chunk_offset(config@, sample_views(samples@)));
        reveal(mp4_file);
        assert(out@ =~= mp4_file(config@, sample_views(samples@)));
    }
    out
}

proof fn lemma_sum_prefix(sizes: Seq<u32>, k: int)
    requires
        0 < k <= sizes.len(),
    ensures
        sum_sizes(sizes.subrange(0, k)) == sum_sizes(sizes.subrange(0, k - 1)) + sizes[k - 1],
        sum_sizes(sizes.subrange(0, k)) <= sum_sizes(sizes),
    decreases sizes.len() - k,
{
    assert(sizes.subrange(0, k).drop_last() =~= sizes.subrange(0, k - 1));
    if k < sizes.len() {
        lemma_sum_prefix(sizes, k + 1);
    } else {
        assert(sizes.subrange(0, k) =~= sizes);
    }
}

/// Builds the initialization segment of a fragmented MP4 file: `ftyp` and a
/// `moov` with empty sample tables and an `mvex` box.
pub fn build_fmp4_init(config: &Mp4TrackConfig) -> (out: Vec<u8>)
    ensures
        out@ == fmp4_init(config@),
{
    let mut out: Vec<u8> = Vec::new();
    write_ftyp(&mut out);
    let mut tables: Vec<u8> = Vec::new();
    write_empty_sample_tables(&mut tables);
    let moov = build_moov(config, 0, &tables, true);
    push_all(&mut out, moov.as_slice());
    out
}


fn write_trun_entries(buf: &mut Vec<u8>, samples: &[Mp4Sample], sample_delta: u32)
    ensures
        final(buf)@ == old(buf)@ + trun_entries(sample_views(samples@), sample_delta),
{
    let mut i: usize = 0;
    while i < samples.len()
        invariant
            i <= samples@.len(),
            buf@ == old(buf)@ + trun_entries(sample_views(samples@).subrange(0, i as int), sample_delta),
        decreases samples@.len() - i,
    {
        push_be32(buf, sample_delta);
        push_be32(buf, #[verifier::truncate] (samples[i].data.len() as u32));
        push_be32(buf, sample_flags(&samples[i]));
        i += 1;
        assert(sample_views(samples@).subrange(0, i as int).drop_last() =~= sample_views(samples@).subrange(0, i - 1));
        assert(buf@ =~= old(buf)@ + trun_entries(sample_views(samples@).subrange(0, i as int), sample_delta));
    }
    assert(sample_views(samples@).subrange(0, i as int) =~= sample_views(samples@));
}

fn build_moof(samples: &[Mp4Sample], sample_delta: u32, sequence_number: u32,
    base_decode_time: u64, data_offset: u32) -> (out: Vec<u8>)
    ensures
        out@ == moof_box(sample_views(samples@), sample_delta, sequence_number, base_decode_time, data_offset as int),
{
    let mut mfhd: Vec<u8> = Vec::new();
    push_be32(&mut mfhd, sequence_number);
    let mut tfhd: Vec<u8> = Vec::new();
    push_be32(&mut tfhd, TRACK_ID);
    let mut tfdt: Vec<u8> = Vec::new();
    push_be64(&mut tfdt, base_decode_time);
    let mut trun: Vec<u8> = Vec::new();
    push_be32(&mut trun, #[verifier::truncate] (samples.len() as u32));
    push_be32(&mut trun, data_offset);
    write_trun_entries(&mut trun, samples, sample_delta);
    let mut traf: Vec<u8> = Vec::new();
    write_full_box(&mut traf, TFHD, 0, 0x020000, &tfhd);
    write_full_box(&mut traf, TFDT, 1, 0, &tfdt);
    write_full_box(&mut traf, TRUN, 0, 0x000701, &trun);
    let mut moof: Vec<u8> = Vec::new();
    write_full_box(&mut moof, MFHD, 0, 0, &mfhd);
    write_box(&mut moof, TRAF, &traf);
    let mut out: Vec<u8> = Vec::new();
    write_box(&mut out, MOOF, &moof);
    assert(trun@ =~= be32_bytes((samples@.len() as u32) as int) + be32_bytes(data_offset as int)
        + trun_entries(sample_views(samples@), sample_delta));
    assert(traf@ =~= full_box(TFHD, 0, 0x020000, be32_bytes(TRACK_ID as int))
        + full_box(TFDT, 1, 0, be64_bytes(base_decode_time as int))
        + full_box(TRUN, 0, 0x000701, trun@));
    reveal(moof_box);
    assert(out@ =~= moof_box(sample_views(samples@), sample_delta, sequence_number, base_decode_time, data_offset as int));
    out
}

/// Builds one media segment of a fragmented MP4 file: a `moof` whose `trun`
/// describes every sample, followed by an `mdat` holding the samples.
pub fn build_fmp4_segment(
    config: &Mp4TrackConfig,
    samples: &[Mp4Sample],
    sequence_number: u32,
    base_decode_time: u64,
) -> (out: Vec<u8>)
    requires
        payload_len(sample_views(samples@)) + 16 <= u64::MAX,
    ensures
        out@ == fmp4_segment(config@, sample_views(samples@), sequence_number, base_decode_time),
{
    let ghost ss = sample_views(samples@);
    let mut total_mdat_payload: u64 = 0;
    let mut i: usize = 0;
    while i < samples.len()
        invariant
            i <= ss.len(),
            ss == sample_views(samples@),
            payload_len(ss) + 16 <= u64::MAX,
            total_mdat_payload == payload_len(ss.subrange(0, i as int)),
        decreases ss.len() - i,
    {
        proof {
            lemma_payload_len_prefix(ss, i + 1);
        }
        total_mdat_payload = total_mdat_payload + samples[i].data.len() as u64;
        i += 1;
    }
    proof {
        assert(ss.subrange(0, i as int) =~= ss);
    }
    let moof0 = build_moof(samples, config.sample_delta, sequence_number, base_decode_time, 0);
    let data_offset = ((moof0.len() as u128 + 8) % 0x1_0000_0000) as u32;
    let moof = build_moof(samples, config.sample_delta, sequence_number, base_decode_time, data_offset);
    let mut out: Vec<u8> = Vec::new();
    push_all(&mut out, moof.as_slice());
    write_mdat_header(&mut out, total_mdat_payload);
    write_payload(&mut out, samples);
    reveal(fmp4_segment);
    assert(out@ =~= fmp4_segment(config@, sample_views(samples@), sequence_number, base_decode_time));
    out
}

proof fn lemma_payload_len_prefix(samples: Seq<SampleView>, k: int)
    requires
        0 < k <= samples.len(),
    ensures
        payload_len(samples.subrange(0, k)) == payload_len(samples.subrange(0, k - 1)) + samples[k - 1].data.len(),
        payload_len(samples.subrange(0, k)) <= payload_len(samples),
    decreases samples.len() - k,
{
    assert(samples.subrange(0, k).drop_last() =~= samples.subrange(0, k - 1));
    if k < samples.len() {
        lemma_payload_len_prefix(samples, k + 1);
    } else {
        assert(samples.subrange(0, k) =~= samples);
    }
}


// ---------------------------------------------------------------------------
// Properties of the produced files.

/// A box's 32-bit size field holds the box's length, whenever that length fits.
pub proof fn lemma_box_size_field(fourcc: u32, content: Seq<u8>)
    requires
        content.len() + 8 <= 0xFFFF_FFFF,
    ensures
        be32(mp4_box(fourcc, content), 0) == mp4_box(fourcc, content).len(),
        mp4_box(fourcc, content).len() == content.len() + 8,
        mp4_box(fourcc, content).subrange(4, 8) == be32_bytes(fourcc as int),
{
    let b = mp4_box(fourcc, content);
    lemma_be32_roundtrip((content.len() + 8) as int);
    assert(b.subrange(0, 4) =~= be32_bytes(((content.len() + 8) % 0x1_0000_0000) as int));
    assert(b.subrange(4, 8) =~= be32_bytes(fourcc as int));
    assert(be32(b, 0) == be32(b.subrange(0, 4), 0));
}

proof fn lemma_moov_len_independent_of_offset(cfg: TrackParams, duration: u64, delta: u32,
    sizes: Seq<u32>, keys: Seq<u32>, o1: u64, o2: u64)
    ensures
        moov_box(cfg, duration, sample_tables(delta, sizes, keys, o1), false).len()
            == moov_box(cfg, duration, sample_tables(delta, sizes, keys, o2), false).len(),
{
    reveal(moov_box);
    reveal(sample_tables);
    assert(co64_box(o1).len() == co64_box(o2).len());
    assert(sample_tables(delta, sizes, keys, o1).len() == sample_tables(delta, sizes, keys, o2).len());
}

proof fn lemma_suffix_after_prefix(prefix: Seq<u8>, rest: Seq<u8>)
    ensures
        (prefix + rest).subrange(prefix.len() as int, (prefix + rest).len() as int) == rest,
        (prefix + rest).len() == prefix.len() + rest.len(),
{
    assert((prefix + rest).subrange(prefix.len() as int, (prefix + rest).len() as int) =~= rest);
}

/// In a complete file, the chunk offset recorded in `co64` is the position at
/// which the first sample's bytes begin, and the samples run to the end of
/// the file (whenever the offset does not wrap around 2^64).
pub proof fn lemma_chunk_offset_points_at_samples(cfg: TrackParams, samples: Seq<SampleView>)
    requires
        mp4_file(cfg, samples).len() < 0x1_0000_0000_0000_0000,
    ensures
        ({
            let file = mp4_file(cfg, samples);
            let off = mp4_chunk_offset(cfg, samples) as int;
            &&& off + payload(samples).len() == file.len()
            &&& file.subrange(off, file.len() as int) == payload(samples)
        }),
{
    let sizes = sample_sizes(samples);
    let keys = keyframe_numbers(samples);
    let d = track_duration(cfg, samples);
    let off = mp4_chunk_offset(cfg, samples);
    let t0 = sample_tables(cfg.sample_delta, sizes, keys, 0);
    let t1 = sample_tables(cfg.sample_delta, sizes, keys, off);
    lemma_moov_len_independent_of_offset(cfg, d, cfg.sample_delta, sizes, keys, 0, off);
    let m0 = moov_box(cfg, d, t0, false);
    let m1 = moov_box(cfg, d, t1, false);
    let f = ftyp_box();
    let hdr = mdat_header(sum_sizes(sizes));
    lemma_mdat_header_len(sum_sizes(sizes));
    let x = f.len() + m0.len() + mdat_header_len(sum_sizes(sizes));
    assert(off == (x % 0x1_0000_0000_0000_0000) as u64) by {
        reveal(mp4_chunk_offset);
    }
    let prefix = f + m1 + hdr;
    assert(prefix.len() == x);
    let file = mp4_file(cfg, samples);
    assert(file == prefix + payload(samples)) by {
        reveal(mp4_file);
    }
    lemma_suffix_after_prefix(prefix, payload(samples));
    assert(x < 0x1_0000_0000_0000_0000);
    assert(off == x);
}

/// The keyframe numbers written in `stss` are exactly the one-based positions
/// of the keyframe samples, in increasing order (for fewer than 2^32 samples).
pub proof fn lemma_keyframe_numbers(samples: Seq<SampleView>)
    requires
        samples.len() < 0x1_0000_0000,
    ensures
        forall|i: int| 0 <= i < samples.len() ==> (samples[i].is_keyframe
            <==> keyframe_numbers(samples).contains((i + 1) as u32)),
        forall|a: int, b: int| 0 <= a < b < keyframe_numbers(samples).len()
            ==> keyframe_numbers(samples)[a] < keyframe_numbers(samples)[b],
        forall|a: int| 0 <= a < keyframe_numbers(samples).len()
            ==> 1 <= #[trigger] keyframe_numbers(samples)[a] <= samples.len(),
    decreases samples.len(),
{
    if samples.len() > 0 {
        let pre = samples.drop_last();
        lemma_keyframe_numbers(pre);
        let k = keyframe_numbers(samples);
        let kp = keyframe_numbers(pre);
        assert forall|i: int| 0 <= i < samples.len() implies (samples[i].is_keyframe
            <==> k.contains((i + 1) as u32)) by {
            if i < samples.len() - 1 {
                assert(samples[i] == pre[i]);
                if kp.contains((i + 1) as u32) {
                    let j = choose|j: int| 0 <= j < kp.len() && kp[j] == (i + 1) as u32;
                    assert(k[j] == kp[j]);
                }
                if k.contains((i + 1) as u32) {
                    let j = choose|j: int| 0 <= j < k.len() && k[j] == (i + 1) as u32;
                    if j < kp.len() {
                        assert(kp[j] == k[j]);
                    }
                }
            } else {
                if samples.last().is_keyframe {
                    assert(k[kp.len() as int] == (i + 1) as u32);
                } else {
                    assert(k =~= kp);
                    if k.contains((i + 1) as u32) {
                        let j = choose|j: int| 0 <= j < k.len() && k[j] == (i + 1) as u32;
                        assert(kp[j] <= pre.len());
                    }
                }
            }
        }
    }
}


proof fn lemma_moof_len_independent_of_offset(samples: Seq<SampleView>, sample_delta: u32,
    sequence_number: u32, base_decode_time: u64, a: int, b: int)
    ensures
        moof_box(samples, sample_delta, sequence_number, base_decode_time, a).len()
            == moof_box(samples, sample_delta, sequence_number, base_decode_time, b).len(),
{
    reveal(moof_box);
    assert(be32_bytes(a).len() == be32_bytes(b).len());
}

proof fn lemma_mdat_header_len(payload_size: int)
    ensures
        mdat_header(payload_size).len() == mdat_header_len(payload_size),
{
}

/// In a media segment, the `trun` data offset is the distance from the start
/// of `moof` to the first sample byte (whenever it fits in 32 bits).
pub proof fn lemma_segment_data_offset_points_at_samples(cfg: TrackParams,
    samples: Seq<SampleView>, sequence_number: u32, base_decode_time: u64)
    requires
        moof_box(samples, cfg.sample_delta, sequence_number, base_decode_time, 0).len() + 8
            < 0x1_0000_0000,
        payload_len(samples) + 8 <= 0xFFFF_FFFF,
    ensures
        ({
            let seg = fmp4_segment(cfg, samples, sequence_number, base_decode_time);
            let off = segment_data_offset(samples, cfg.sample_delta, sequence_number, base_decode_time);
            &&& off + payload(samples).len() == seg.len()
            &&& seg.subrange(off, seg.len() as int) == payload(samples)
        }),
{
    let off = segment_data_offset(samples, cfg.sample_delta, sequence_number, base_decode_time);
    let m0 = moof_box(samples, cfg.sample_delta, sequence_number, base_decode_time, 0);
    let m = moof_box(samples, cfg.sample_delta, sequence_number, base_decode_time, off);
    lemma_moof_len_independent_of_offset(samples, cfg.sample_delta, sequence_number, base_decode_time, 0, off);
    let hdr = mdat_header(payload_len(samples));
    lemma_mdat_header_len(payload_len(samples));
    let prefix = m + hdr;
    let seg = fmp4_segment(cfg, samples, sequence_number, base_decode_time);
    reveal(fmp4_segment);
    assert(seg == prefix + payload(samples));
    lemma_suffix_after_prefix(prefix, payload(samples));
}


/// The 32-bit sizes of the samples add up to at most their true lengths.
pub proof fn lemma_sum_sizes_le_payload_len(samples: Seq<SampleView>)
    ensures
        sum_sizes(sample_sizes(samples)) <= payload_len(samples),
    decreases samples.len(),
{
    if samples.len() > 0 {
        lemma_sum_sizes_le_payload_len(samples.drop_last());
        assert(sample_sizes(samples).drop_last() =~= sample_sizes(samples.drop_last()));
        let n = samples.last().data.len();
        assert((n as u32) as int <= n);
    }
}

// ---------------------------------------------------------------------------
// The recorded duration.

proof fn lemma_be32_list_len(values: Seq<u32>)
    ensures
        be32_list(values).len() == 4 * values.len(),
    decreases values.len(),
{
    if values.len() > 0 {
        lemma_be32_list_len(values.drop_last());
    }
}

/// Bytes `q..q + v.len()` of a window placed at `p` are bytes
/// `p + q..p + q + v.len()` of the whole.
proof fn lemma_nested_window(s: Seq<u8>, w: Seq<u8>, p: int, v: Seq<u8>, q: int)
    requires
        0 <= p,
        p + w.len() <= s.len(),
        s.subrange(p, p + w.len()) == w,
        0 <= q,
        q + v.len() <= w.len(),
        w.subrange(q, q + v.len()) == v,
    ensures
        s.subrange(p + q, p + q + v.len()) == v,
{
    assert forall|i: int| 0 <= i < v.len() implies s[p + q + i] == v[i] by {
        assert(s.subrange(p, p + w.len())[q + i] == s[p + q + i]);
        assert(w.subrange(q, q + v.len())[i] == w[q + i]);
    }
    assert(s.subrange(p + q, p + q + v.len()) =~= v);
}

/// The big-endian word at `p` is `x` when the four bytes there encode `x`.
proof fn lemma_be32_read(s: Seq<u8>, p: int, x: int)
    requires
        0 <= x < 0x1_0000_0000,
        0 <= p,
        p + 4 <= s.len(),
        s.subrange(p, p + 4) == be32_bytes(x),
    ensures
        be32(s, p) == x,
{
    lemma_be32_roundtrip(x);
    let b = be32_bytes(x);
    assert(s[p] == b[0] && s[p + 1] == b[1] && s[p + 2] == b[2] && s[p + 3] == b[3]) by {
        assert(s.subrange(p, p + 4)[0] == s[p]);
        assert(s.subrange(p, p + 4)[1] == s[p + 1]);
        assert(s.subrange(p, p + 4)[2] == s[p + 2]);
        assert(s.subrange(p, p + 4)[3] == s[p + 3]);
    }
}

/// The fields of a header box that the law below reads: its type at 4, its
/// timescale (movie and media headers) at 20 and its duration at `at`.
proof fn lemma_mvhd_fields(timescale: u32, duration: u64)
    ensures
        mvhd_box(timescale, duration).len() == 108,
        mvhd_box(timescale, duration).subrange(4, 8) == be32_bytes(MVHD as int),
        mvhd_box(timescale, duration).subrange(20, 24) == be32_bytes(timescale as int),
        mvhd_box(timescale, duration).subrange(24, 28) == be32_bytes(capped32(duration)),
{
    lemma_be32_list_len(seq![0x0001_0000u32, 0, 0, 0, 0x0001_0000, 0, 0, 0, 0x4000_0000]);
    let b = mvhd_box(timescale, duration);
    assert(b.subrange(4, 8) =~= be32_bytes(MVHD as int));
    assert(b.subrange(20, 24) =~= be32_bytes(timescale as int));
    assert(b.subrange(24, 28) =~= be32_bytes(capped32(duration)));
}

proof fn lemma_tkhd_fields(duration: u64, width: u32, height: u32)
    ensures
        tkhd_box(duration, width, height).len() == 92,
        tkhd_box(duration, width, height).subrange(4, 8) == be32_bytes(TKHD as int),
        tkhd_box(duration, width, height).subrange(28, 32) == be32_bytes(capped32(duration)),
{
    lemma_be32_list_len(seq![0x0001_0000u32, 0, 0, 0, 0x0001_0000, 0, 0, 0, 0x4000_0000]);
    let b = tkhd_box(duration, width, height);
    assert(b.subrange(4, 8) =~= be32_bytes(TKHD as int));
    assert(b.subrange(28, 32) =~= be32_bytes(capped32(duration)));
}

proof fn lemma_mdhd_fields(timescale: u32, duration: u64)
    ensures
        mdhd_box(timescale, duration).len() >= 28,
        mdhd_box(timescale, duration).subrange(4, 8) == be32_bytes(MDHD as int),
        mdhd_box(timescale, duration).subrange(20, 24) == be32_bytes(timescale as int),
        mdhd_box(timescale, duration).subrange(24, 28) == be32_bytes(capped32(duration)),
{
    let b = mdhd_box(timescale, duration);
    assert(b.subrange(4, 8) =~= be32_bytes(MDHD as int));
    assert(b.subrange(20, 24) =~= be32_bytes(timescale as int));
    assert(b.subrange(24, 28) =~= be32_bytes(capped32(duration)));
}

/// The parts of a box's content lie right after its 8-byte header.
proof fn lemma_box_parts(fourcc: u32, a: Seq<u8>, b: Seq<u8>, c: Seq<u8>)
    ensures
        mp4_box(fourcc, a + b + c).len() == 8 + a.len() + b.len() + c.len(),
        mp4_box(fourcc, a + b + c).subrange(8, 8 + a.len() as int) == a,
        mp4_box(fourcc, a + b + c).subrange(8 + a.len() as int, 8 + a.len() + b.len() as int) == b,
{
    let x = mp4_box(fourcc, a + b + c);
    assert(x.subrange(8, 8 + a.len() as int) =~= a);
    assert(x.subrange(8 + a.len() as int, 8 + a.len() + b.len() as int) =~= b);
}

/// In a complete file the movie header (`mvhd`, at byte 40), the track
/// header (`tkhd`, at byte 156) and the media header (`mdhd`, at byte 256)
/// each record as duration the per-sample delta times the number of
/// samples, which is the sum of the `stts` sample durations (capped at
/// `u32::MAX`, the width of the field); the movie and media headers record
/// the track's timescale.
#[verifier::spinoff_prover]
pub proof fn lemma_mp4_durations(cfg: TrackParams, samples: Seq<SampleView>)
    requires
        cfg.sample_delta * samples.len() <= u64::MAX,
    ensures
        ({
            let f = mp4_file(cfg, samples);
            let total = cfg.sample_delta * samples.len();
            let field = if total > 0xFFFF_FFFF { 0xFFFF_FFFF } else { total };
            &&& f.len() >= 284
            &&& be32(f, 44) == MVHD
            &&& be32(f, 60) == cfg.timescale
            &&& be32(f, 64) == field
            &&& be32(f, 160) == TKHD
            &&& be32(f, 184) == field
            &&& be32(f, 260) == MDHD
            &&& be32(f, 276) == cfg.timescale
            &&& be32(f, 280) == field
        }),
{
    let d = track_duration(cfg, samples);
    let total = cfg.sample_delta * samples.len();
    assert(d == total);
    let c = capped32(d);
    assert(c == if total > 0xFFFF_FFFF { 0xFFFF_FFFF } else { total });
    let tables = sample_tables(cfg.sample_delta, sample_sizes(samples), keyframe_numbers(samples),
        mp4_chunk_offset(cfg, samples));
    let f = mp4_file(cfg, samples);
    let moov = moov_box(cfg, d, tables, false);
    let rest = mdat_header(sum_sizes(sample_sizes(samples))) + payload(samples);
    assert(f == ftyp_box() + moov + rest) by {
        reveal(mp4_file);
    }
    assert(ftyp_box().len() == 32);
    assert(f.subrange(32, 32 + moov.len() as int) =~= moov);

    let mv = mvhd_box(cfg.timescale, d);
    let tk = tkhd_box(d, cfg.width, cfg.height);
    let md = mdhd_box(cfg.timescale, d);
    let hd = hdlr_box();
    let minf = mp4_box(MINF, vmhd_box() + dinf_box()
        + mp4_box(STBL, stsd_box(cfg.width, cfg.height, cfg.sps, cfg.pps) + tables));
    let mdia = mp4_box(MDIA, md + hd + minf);
    let e = Seq::<u8>::empty();
    let trak = mp4_box(TRAK, tk + mdia + e);
    assert(tk + mdia + e =~= tk + mdia);
    assert(moov == mp4_box(MOOV, mv + trak + e)) by {
        reveal(moov_box);
    }
    lemma_mvhd_fields(cfg.timescale, d);
    lemma_tkhd_fields(d, cfg.width, cfg.height);
    lemma_mdhd_fields(cfg.timescale, d);
    lemma_box_parts(MOOV, mv, trak, e);
    lemma_box_parts(TRAK, tk, mdia, e);
    lemma_box_parts(MDIA, md, hd, minf);

    // mvhd: moov + 8.
    lemma_nested_window(moov, mv, 8, be32_bytes(MVHD as int), 4);
    lemma_nested_window(moov, mv, 8, be32_bytes(cfg.timescale as int), 20);
    lemma_nested_window(moov, mv, 8, be32_bytes(c), 24);
    lemma_nested_window(f, moov, 32, be32_bytes(MVHD as int), 12);
    lemma_nested_window(f, moov, 32, be32_bytes(cfg.timescale as int), 28);
    lemma_nested_window(f, moov, 32, be32_bytes(c), 32);
    lemma_be32_read(f, 44, MVHD as int);
    lemma_be32_read(f, 60, cfg.timescale as int);
    lemma_be32_read(f, 64, c);
    // tkhd: trak + 8, trak at moov + 116.
    lemma_nested_window(trak, tk, 8, be32_bytes(TKHD as int), 4);
    lemma_nested_window(trak, tk, 8, be32_bytes(c), 28);
    lemma_nested_window(moov, trak, 116, be32_bytes(TKHD as int), 12);
    lemma_nested_window(moov, trak, 116, be32_bytes(c), 36);
    lemma_nested_window(f, moov, 32, be32_bytes(TKHD as int), 128);
    lemma_nested_window(f, moov, 32, be32_bytes(c), 152);
    lemma_be32_read(f, 160, TKHD as int);
    lemma_be32_read(f, 184, c);
    // mdhd: mdia + 8, mdia at trak + 100.
    lemma_nested_window(mdia, md, 8, be32_bytes(MDHD as int), 4);
    lemma_nested_window(mdia, md, 8, be32_bytes(cfg.timescale as int), 20);
    lemma_nested_window(mdia, md, 8, be32_bytes(c), 24);
    lemma_nested_window(trak, mdia, 100, be32_bytes(MDHD as int), 12);
    lemma_nested_window(trak, mdia, 100, be32_bytes(cfg.timescale as int), 28);
    lemma_nested_window(trak, mdia, 100, be32_bytes(c), 32);
    lemma_nested_window(moov, trak, 116, be32_bytes(MDHD as int), 112);
    lemma_nested_window(moov, trak, 116, be32_bytes(cfg.timescale as int), 128);
    lemma_nested_window(moov, trak, 116, be32_bytes(c), 132);
    lemma_nested_window(f, moov, 32, be32_bytes(MDHD as int), 228);
    lemma_nested_window(f, moov, 32, be32_bytes(cfg.timescale as int), 244);
    lemma_nested_window(f, moov, 32, be32_bytes(c), 248);
    lemma_be32_read(f, 260, MDHD as int);
    lemma_be32_read(f, 276, cfg.timescale as int);
    lemma_be32_read(f, 280, c);
}

/// The three big-endian words of `trun` entry `i`: duration, size, flags.
pub open spec fn trun_entry_read(t: Seq<u8>, i: int) -> (int, int, int) {
    (be32(t, 12 * i), be32(t, 12 * i + 4), be32(t, 12 * i + 8))
}

/// The `trun` entries of a media segment are twelve bytes per sample, in
/// the samples' order: entry `i` holds the per-sample delta as its
/// duration, sample `i`'s size (modulo 2^32) and its flags (sync sample
/// for a keyframe, non-sync otherwise).
pub proof fn lemma_trun_entries_decode(samples: Seq<SampleView>, sample_delta: u32)
    ensures
        trun_entries(samples, sample_delta).len() == 12 * samples.len(),
        forall|i: int| 0 <= i < samples.len() ==> #[trigger] trun_entry_read(trun_entries(samples, sample_delta), i)
            == (sample_delta as int, (samples[i].data.len() as u32) as int, if samples[i].is_keyframe {
                SYNC_SAMPLE_FLAGS as int
            } else {
                NON_SYNC_SAMPLE_FLAGS as int
            }),
    decreases samples.len(),
{
    if samples.len() > 0 {
        let init = samples.drop_last();
        lemma_trun_entries_decode(init, sample_delta);
        let t = trun_entries(samples, sample_delta);
        let a = trun_entries(init, sample_delta);
        let x = samples.last();
        let k = a.len() as int;
        let e0 = be32_bytes(sample_delta as int);
        let e1 = be32_bytes((x.data.len() as u32) as int);
        let e2 = be32_bytes(flags_of(x) as int);
        assert(t == a + e0 + e1 + e2);
        assert(t.subrange(k, k + 4) =~= e0);
        assert(t.subrange(k + 4, k + 8) =~= e1);
        assert(t.subrange(k + 8, k + 12) =~= e2);
        lemma_be32_read(t, k, sample_delta as int);
        lemma_be32_read(t, k + 4, (x.data.len() as u32) as int);
        lemma_be32_read(t, k + 8, flags_of(x) as int);
        assert forall|i: int| 0 <= i < samples.len() implies #[trigger] trun_entry_read(t, i)
            == (sample_delta as int, (samples[i].data.len() as u32) as int, if samples[i].is_keyframe {
                SYNC_SAMPLE_FLAGS as int
            } else {
                NON_SYNC_SAMPLE_FLAGS as int
            }) by {
            if i < init.len() {
                assert(samples[i] == init[i]);
                assert(12 * i + 12 <= k);
                assert(trun_entry_read(a, i) == (sample_delta as int, (init[i].data.len() as u32) as int,
                    if init[i].is_keyframe { SYNC_SAMPLE_FLAGS as int } else { NON_SYNC_SAMPLE_FLAGS as int }));
                assert(t[12 * i + 0] == a[12 * i + 0]);
                assert(t[12 * i + 1] == a[12 * i + 1]);
                assert(t[12 * i + 2] == a[12 * i + 2]);
                assert(t[12 * i + 3] == a[12 * i + 3]);
                assert(t[12 * i + 4] == a[12 * i + 4]);
                assert(t[12 * i + 5] == a[12 * i + 5]);
                assert(t[12 * i + 6] == a[12 * i + 6]);
                assert(t[12 * i + 7] == a[12 * i + 7]);
                assert(t[12 * i + 8] == a[12 * i + 8]);
                assert(t[12 * i + 9] == a[12 * i + 9]);
                assert(t[12 * i + 10] == a[12 * i + 10]);
                assert(t[12 * i + 11] == a[12 * i + 11]);
            } else {
                assert(12 * i == k);
                assert(samples[i] == x);
            }
        }
    }
}

} // verus!
