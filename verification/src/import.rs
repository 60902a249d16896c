//! The header of a recording imported from an external video and depth
//! images: default intrinsics at the given size, an identity extrinsic
//! rotation, and the session name in its fixed-size field. Calibration
//! values are IEEE-754 `f32` bit patterns.
use vstd::prelude::*;
use vstd::utf8::encode_utf8;
use crate::format::{file_magic, file_magic_bytes, FileHeader};

verus! {

/// Depth scale of imported recordings, 0.001 (metres per unit).
pub const IMPORT_DEPTH_SCALE: u32 = 0x3A83_126F;
/// Default focal length x, 602.73 pixels.
pub const DEFAULT_FX: u32 = 0x4416_AEB8;
/// Default focal length y, 602.65 pixels.
pub const DEFAULT_FY: u32 = 0x4416_A99A;
/// Default principal point x, 647.43 pixels.
pub const DEFAULT_PPX: u32 = 0x4421_DB85;
/// Default principal point y, 374.61 pixels.
pub const DEFAULT_PPY: u32 = 0x43BB_4E14;
/// 1.0 as an `f32`.
pub const ONE: u32 = 0x3F80_0000;

/// `n` zero bytes.
pub open spec fn zero_bytes(n: nat) -> Seq<u8> {
    Seq::new(n, |i: int| 0u8)
}

/// `n` zero words.
pub open spec fn zero_words(n: nat) -> Seq<u32> {
    Seq::new(n, |i: int| 0u32)
}

/// The session-name field: the name's first 127 UTF-8 bytes at most, then
/// zeros up to 128 bytes.
pub open spec fn session_field(name: Seq<u8>) -> Seq<u8> {
    let k = if name.len() < 127 { name.len() } else { 127 };
    name.subrange(0, k as int) + zero_bytes((128 - k) as nat)
}

/// The identity rotation, row by row.
pub open spec fn identity_rotation() -> Seq<u32> {
    seq![ONE, 0, 0, 0, ONE, 0, 0, 0, ONE]
}

fn zeros(n: usize) -> (v: Vec<u8>)
    ensures
        v@ == zero_bytes(n as nat),
{
    let mut v: Vec<u8> = Vec::new();
    let mut i: usize = 0;
    while i < n
        invariant
            i <= n,
            v@ == zero_bytes(i as nat),
        decreases n - i,
    {
        v.push(0);
        i += 1;
        assert(v@ =~= zero_bytes(i as nat));
    }
    v
}

fn zero_words_vec(n: usize) -> (v: Vec<u32>)
    ensures
        v@ == zero_words(n as nat),
{
    let mut v: Vec<u32> = Vec::new();
    let mut i: usize = 0;
    while i < n
        invariant
            i <= n,
            v@ == zero_words(i as nat),
        decreases n - i,
    {
        v.push(0);
        i += 1;
        assert(v@ =~= zero_words(i as nat));
    }
    v
}

fn session_bytes(name: &str) -> (v: Vec<u8>)
    ensures
        v@ == session_field(encode_utf8(name@)),
{
    let bytes = name.as_bytes();
    let k: usize = if bytes.len() < 127 { bytes.len() } else { 127 };
    let mut v: Vec<u8> = Vec::new();
    let mut i: usize = 0;
    while i < k
        invariant
            i <= k <= bytes@.len(),
            k <= 127,
            v@ == bytes@.subrange(0, i as int),
        decreases k - i,
    {
        v.push(bytes[i]);
        i += 1;
        assert(v@ =~= bytes@.subrange(0, i as int));
    }
    let ghost prefix = v@;
    let mut j: usize = k;
    while j < 128
        invariant
            k <= j <= 128,
            v@ == prefix + zero_bytes((j - k) as nat),
        decreases 128 - j,
    {
        v.push(0);
        j += 1;
        assert(v@ =~= prefix + zero_bytes((j - k) as nat));
    }
    v
}

/// The header of a recording imported at `width` x `height` (RGB and depth
/// alike): H.264 RGB and depth codec 2, RGB quality 23, no IMU, default
/// intrinsics without distortion, identity extrinsics, a depth scale of
/// 0.001, and the session name.
pub fn build_header(width: u32, height: u32, session_name: &str) -> (h: FileHeader)
    ensures
        h.wf(),
        h.magic@ == file_magic(),
        h.header_size == 472,
        h.flags == 0,
        h.serial_number@ == zero_bytes(32),
        h.depth_scale == IMPORT_DEPTH_SCALE,
        h.depth_width == width && h.depth_height == height,
        h.depth_fx == DEFAULT_FX && h.depth_fy == DEFAULT_FY,
        h.depth_ppx == DEFAULT_PPX && h.depth_ppy == DEFAULT_PPY,
        h.depth_distortion_model == 0,
        h.depth_distortion_coeffs@ == zero_words(5),
        h.color_width == width && h.color_height == height,
        h.color_fx == DEFAULT_FX && h.color_fy == DEFAULT_FY,
        h.color_ppx == DEFAULT_PPX && h.color_ppy == DEFAULT_PPY,
        h.color_distortion_model == 0,
        h.color_distortion_coeffs@ == zero_words(5),
        h.extrinsic_rotation@ == identity_rotation(),
        h.extrinsic_translation@ == zero_words(3),
        h.session_name@ == session_field(encode_utf8(session_name@)),
        h.start_timestamp_us == 0,
        h.usb_type@ == zero_bytes(8),
        h.rgb_codec == 2 && h.depth_codec == 2,
        h.rgb_quality == 23 && h.zstd_level == 0,
        h.reserved@ == zero_bytes(128),
{
    let mut rotation: Vec<u32> = Vec::new();
    rotation.push(ONE);
    rotation.push(0);
    rotation.push(0);
    rotation.push(0);
    rotation.push(ONE);
    rotation.push(0);
    rotation.push(0);
    rotation.push(0);
    rotation.push(ONE);
    assert(rotation@ =~= identity_rotation());
    FileHeader {
        magic: file_magic_bytes(),
        header_size: 472,
        flags: 0,
        serial_number: zeros(32),
        depth_scale: IMPORT_DEPTH_SCALE,
        depth_width: width,
        depth_height: height,
        depth_fx: DEFAULT_FX,
        depth_fy: DEFAULT_FY,
        depth_ppx: DEFAULT_PPX,
        depth_ppy: DEFAULT_PPY,
        depth_distortion_model: 0,
        depth_distortion_coeffs: zero_words_vec(5),
        color_width: width,
        color_height: height,
        color_fx: DEFAULT_FX,
        color_fy: DEFAULT_FY,
        color_ppx: DEFAULT_PPX,
        color_ppy: DEFAULT_PPY,
        color_distortion_model: 0,
        color_distortion_coeffs: zero_words_vec(5),
        extrinsic_rotation: rotation,
        extrinsic_translation: zero_words_vec(3),
        session_name: session_bytes(session_name),
        start_timestamp_us: 0,
        usb_type: zeros(8),
        rgb_codec: 2,
        depth_codec: 2,
        rgb_quality: 23,
        zstd_level: 0,
        reserved: zeros(128),
    }
}


/// Frames between keyframes of an imported recording.
pub const KEYFRAME_INTERVAL: u64 = 30;

/// What the importer does with its next decoded video frame: the 1-based
/// number of the depth image that goes with it, its timestamp, and whether
/// it is encoded as a keyframe.
#[derive(Clone, Copy, PartialEq, Eq, Structural, Debug)]
pub struct ImportFrame {
    pub depth_image: u64,
    pub timestamp_us: u64,
    pub is_keyframe: bool,
}

/// The plan for frame `frame_number` of an import at `fps` frames per
/// second with `depth_frames` depth images: none once every depth image is
/// used; otherwise the next depth image, a timestamp of `frame_number`
/// frame durations (whole microseconds), and a keyframe every
/// `KEYFRAME_INTERVAL` frames.
pub open spec fn import_frame_spec(frame_number: u64, depth_frames: u64, fps: u32) -> Option<ImportFrame> {
    if frame_number >= depth_frames {
        None
    } else {
        Some(ImportFrame {
            depth_image: (frame_number + 1) as u64,
            timestamp_us: (frame_number * (1_000_000int / (fps as int))) as u64,
            is_keyframe: frame_number % 30 == 0,
        })
    }
}

/// Decides what the importer does with decoded frame `frame_number`.
pub fn import_frame(frame_number: u64, depth_frames: u64, fps: u32) -> (r: Option<ImportFrame>)
    requires
        fps > 0,
        frame_number < depth_frames ==> frame_number * (1_000_000int / (fps as int)) <= u64::MAX,
    ensures
        r == import_frame_spec(frame_number, depth_frames, fps),
{
    if frame_number >= depth_frames {
        return None;
    }
    let frame_duration_us: u64 = 1_000_000u64 / fps as u64;
    Some(ImportFrame {
        depth_image: frame_number + 1,
        timestamp_us: frame_number * frame_duration_us,
        is_keyframe: frame_number % KEYFRAME_INTERVAL == 0,
    })
}

} // verus!
