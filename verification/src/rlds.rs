//! One RLDS step as a `tf.train.Example`: the frame's images encoded by the
//! `image` crate, the camera calibration from the recording header, the
//! step's timestamp and its first/last/terminal flags.
use vstd::prelude::*;
use crate::byte_order::{group_le_bytes_len, le16_bytes, push_le16};
use crate::format::FileHeader;
use crate::tfrecord::{encode_example, entry_views, example_bytes, keys_distinct, Feature, FeatureView};
use crate::text::text;

verus! {

broadcast use group_le_bytes_len;

/// Where and under which name an RLDS export is written.
pub struct RldsExportConfig {
    pub output_dir: String,
    pub dataset_name: String,
    pub dataset_description: String,
}

/// `image`'s error type, carried as it is.
#[verifier::external_type_specification]
#[verifier::external_body]
pub struct ExImageError(image::ImageError);

/// Why an RLDS export failed: an I/O or JSON failure with its text, or the
/// image encoder's error.
#[derive(Debug)]
pub enum RldsError {
    Io(String),
    Image(image::ImageError),
    Json(String),
}

/// What an export failure stands for (an image error by its kind only).
pub enum RldsErrorView {
    Io(Seq<char>),
    Image,
    Json(Seq<char>),
}

impl View for RldsError {
    type V = RldsErrorView;

    open spec fn view(&self) -> RldsErrorView {
        match self {
            RldsError::Io(m) => RldsErrorView::Io(m@),
            RldsError::Image(_) => RldsErrorView::Image,
            RldsError::Json(m) => RldsErrorView::Json(m@),
        }
    }
}

/// Calls `ToString::to_string` on an `image::ImageError`, which renders it
/// with its `Display` implementation; nothing is claimed of the text.
#[verifier::external_body]
fn image_error_text(e: &image::ImageError) -> (t: String) {
    e.to_string()
}

impl RldsError {
    /// The text the failure is reported with: `I/O error: `, `image encoding
    /// error: ` or `JSON error: `, then the underlying error's text.
    pub fn message(&self) -> (m: String)
        ensures
            match self@ {
                RldsErrorView::Io(e) => m@ == "I/O error: "@ + e,
                RldsErrorView::Image => m@.len() >= 22 && m@.subrange(0, 22) == "image encoding error: "@,
                RldsErrorView::Json(e) => m@ == "JSON error: "@ + e,
            },
    {
        match self {
            RldsError::Io(e) => {
                let mut m = text("I/O error: ");
                m.append(e.as_str());
                m
            },
            RldsError::Image(e) => {
                let mut m = text("image encoding error: ");
                let inner = image_error_text(e);
                m.append(inner.as_str());
                proof {
                    reveal_strlit("image encoding error: ");
                    assert(m@.subrange(0, 22) =~= "image encoding error: "@);
                }
                m
            },
            RldsError::Json(e) => {
                let mut m = text("JSON error: ");
                m.append(e.as_str());
                m
            },
        }
    }
}

/// The bytes `image`'s JPEG encoder writes, at quality 95, for an RGB24
/// image of the given size.
pub uninterp spec fn jpeg_of(rgb: Seq<u8>, width: u32, height: u32) -> Seq<u8>;

/// The bytes `image`'s PNG encoder (default settings) writes for a 16-bit
/// grayscale image of the given size, from the sample bytes it is handed.
/// It reads them in the target's native byte order, so the result is fixed
/// for a given target byte order; the step builder hands it little-endian
/// samples.
pub uninterp spec fn png_l16_of(samples: Seq<u8>, width: u32, height: u32) -> Seq<u8>;

/// Calls `JpegEncoder::new_with_quality(.., 95)` and `write_image` with
/// `Rgb8` into a buffer. The encoder asserts that the data holds
/// width * height * 3 bytes and refuses a side of 0 or above 65535; its
/// other failures are write failures, which a `Vec` does not have. The
/// contract claims that success comes exactly for sizes in range and that
/// the bytes are a function of the arguments; which error comes is left
/// unsaid.
#[verifier::external_body]
fn encode_jpeg(rgb: &[u8], width: u32, height: u32) -> (r: Result<Vec<u8>, image::ImageError>)
    requires
        rgb@.len() == width * height * 3,
    ensures
        r is Ok <==> (1 <= width <= 65535 && 1 <= height <= 65535),
        r matches Ok(v) ==> v@ == jpeg_of(rgb@, width, height),
{
    let mut buf = Vec::new();
    let encoder = image::codecs::jpeg::JpegEncoder::new_with_quality(&mut buf, 95);
    match image::ImageEncoder::write_image(encoder, rgb, width, height, image::ExtendedColorType::Rgb8) {
        Ok(()) => Ok(buf),
        Err(e) => Err(e),
    }
}

/// Calls `PngEncoder::new` and `write_image` with `L16` into a buffer. The
/// encoder asserts that the data holds width * height * 2 bytes; the `png`
/// crate refuses a width or height of 0, and its buffer-size check passes
/// for data of that length; writing to a `Vec` does not fail. The contract
/// claims that success comes exactly for non-zero sizes (an allocation for
/// the byte swap is taken to succeed, as allocations are everywhere here)
/// and that the bytes are a function of the arguments; which error comes is
/// left unsaid.
#[verifier::external_body]
fn encode_png_l16(samples: &[u8], width: u32, height: u32) -> (r: Result<Vec<u8>, image::ImageError>)
    requires
        samples@.len() == width * height * 2,
    ensures
        r is Ok <==> (width >= 1 && height >= 1),
        r matches Ok(v) ==> v@ == png_l16_of(samples@, width, height),
{
    let mut buf = Vec::new();
    let encoder = image::codecs::png::PngEncoder::new(&mut buf);
    match image::ImageEncoder::write_image(encoder, samples, width, height, image::ExtendedColorType::L16) {
        Ok(()) => Ok(buf),
        Err(e) => Err(e),
    }
}

/// The depth samples as bytes, each in little-endian order.
pub open spec fn le16_samples(depth: Seq<u16>) -> Seq<u8>
    decreases depth.len(),
{
    if depth.len() == 0 {
        Seq::empty()
    } else {
        le16_samples(depth.drop_last()) + le16_bytes(depth.last() as int)
    }
}

proof fn lemma_le16_samples_len(depth: Seq<u16>)
    ensures
        le16_samples(depth).len() == 2 * depth.len(),
    decreases depth.len(),
{
    if depth.len() > 0 {
        lemma_le16_samples_len(depth.drop_last());
    }
}

fn depth_sample_bytes(depth: &[u16]) -> (out: Vec<u8>)
    ensures
        out@ == le16_samples(depth@),
{
    let mut out: Vec<u8> = Vec::new();
    let mut i: usize = 0;
    while i < depth.len()
        invariant
            i <= depth@.len(),
            out@ == le16_samples(depth@.subrange(0, i as int)),
        decreases depth@.len() - i,
    {
        push_le16(&mut out, depth[i]);
        i += 1;
        assert(depth@.subrange(0, i as int).drop_last() =~= depth@.subrange(0, i - 1));
    }
    assert(depth@.subrange(0, i as int) =~= depth@);
    out
}

/// A 0/1 flag as an `Int64List` value.
pub open spec fn flag(b: bool) -> FeatureView {
    FeatureView::Int64(seq![if b { 1i64 } else { 0i64 }])
}

/// The features of step `step` of `total`, in key order.
pub open spec fn step_features(jpeg: Seq<u8>, png: Seq<u8>, h: FileHeader, timestamp_bits: u32, step: u64,
    total: u64) -> Seq<(Seq<char>, FeatureView)> {
    seq![
        ("steps/is_first"@, flag(step == 0)),
        ("steps/is_last"@, flag(step == total - 1)),
        ("steps/is_terminal"@, flag(step == total - 1)),
        ("steps/observation/color_intrinsics"@, FeatureView::Float(seq![h.color_fx, h.color_fy, h.color_ppx,
            h.color_ppy])),
        ("steps/observation/depth"@, FeatureView::Bytes(seq![png])),
        ("steps/observation/depth_intrinsics"@, FeatureView::Float(seq![h.depth_fx, h.depth_fy, h.depth_ppx,
            h.depth_ppy])),
        ("steps/observation/extrinsic_R"@, FeatureView::Float(h.extrinsic_rotation@)),
        ("steps/observation/extrinsic_t"@, FeatureView::Float(h.extrinsic_translation@)),
        ("steps/observation/image"@, FeatureView::Bytes(seq![jpeg])),
        ("steps/timestamp"@, FeatureView::Float(seq![timestamp_bits])),
    ]
}

/// What building a step gives: the example, or none when an image cannot
/// be encoded (an RGB side of 0 or above 65535, a depth side of 0).
pub open spec fn step_example_spec(rgb: Seq<u8>, depth: Seq<u16>, h: FileHeader, timestamp_bits: u32, step: u64,
    total: u64) -> Option<Seq<u8>> {
    if 1 <= h.color_width <= 65535 && 1 <= h.color_height <= 65535 && h.depth_width >= 1 && h.depth_height >= 1 {
        Some(example_bytes(step_features(jpeg_of(rgb, h.color_width, h.color_height), png_l16_of(
            le16_samples(depth), h.depth_width, h.depth_height), h, timestamp_bits, step, total)))
    } else {
        None
    }
}

fn int_flag(b: bool) -> (f: Feature)
    ensures
        f@ == flag(b),
{
    let mut v: Vec<i64> = Vec::new();
    v.push(if b { 1 } else { 0 });
    let f = Feature::Int64(v);
    assert(f@ == flag(b)) by {
        assert(v@ =~= seq![if b { 1i64 } else { 0i64 }]);
    }
    f
}

fn float_list(values: &Vec<u32>) -> (f: Feature)
    ensures
        f@ == FeatureView::Float(values@),
{
    Feature::Float(values.clone())
}

fn bytes_feature(data: Vec<u8>) -> (f: Feature)
    ensures
        f@ == FeatureView::Bytes(seq![data@]),
{
    let mut vs: Vec<Vec<u8>> = Vec::new();
    let ghost d = data@;
    vs.push(data);
    let f = Feature::Bytes(vs);
    assert(Seq::new(vs@.len(), |i: int| vs@[i]@) =~= seq![d]);
    f
}

fn floats4(a: u32, b: u32, c: u32, d: u32) -> (f: Feature)
    ensures
        f@ == FeatureView::Float(seq![a, b, c, d]),
{
    let mut v: Vec<u32> = Vec::new();
    v.push(a);
    v.push(b);
    v.push(c);
    v.push(d);
    assert(v@ =~= seq![a, b, c, d]);
    Feature::Float(v)
}

proof fn lemma_step_keys_distinct(jpeg: Seq<u8>, png: Seq<u8>, h: FileHeader, timestamp_bits: u32, step: u64,
    total: u64)
    ensures
        keys_distinct(step_features(jpeg, png, h, timestamp_bits, step, total)),
{
        reveal_strlit("steps/is_first");
        reveal_strlit("steps/is_last");
        reveal_strlit("steps/is_terminal");
        reveal_strlit("steps/observation/color_intrinsics");
        reveal_strlit("steps/observation/depth");
        reveal_strlit("steps/observation/depth_intrinsics");
        reveal_strlit("steps/observation/extrinsic_R");
        reveal_strlit("steps/observation/extrinsic_t");
        reveal_strlit("steps/observation/image");
        reveal_strlit("steps/timestamp");
    let e = step_features(jpeg, png, h, timestamp_bits, step, total);
    assert forall|i: int, j: int| 0 <= i < j < e.len() implies e[i].0 != e[j].0 by {
        if e[i].0.len() == e[j].0.len() {
            assert(e[i].0[18] != e[j].0[18] || e[i].0[28] != e[j].0[28]);
        }
    }
}

/// Builds the `tf.train.Example` of one RLDS step from a decoded frame: the
/// RGB image as JPEG, the depth image as 16-bit PNG, the intrinsics and
/// extrinsics from the header, the step's timestamp (the bits of an `f32`)
/// and whether the step is the first and the last of the `total_frames`.
/// The features are in key order.
pub fn build_step_example(rgb: &[u8], depth: &[u16], header: &FileHeader, timestamp_bits: u32, step_idx: u64,
    total_frames: u64) -> (r: Result<Vec<u8>, RldsError>)
    requires
        rgb@.len() == header.color_width * header.color_height * 3,
        1 <= header.color_width <= 65535 && 1 <= header.color_height <= 65535 ==> depth@.len()
            == header.depth_width * header.depth_height,
        total_frames >= 1,
    ensures
        match r {
            Ok(v) => step_example_spec(rgb@, depth@, *header, timestamp_bits, step_idx, total_frames) == Some(v@),
            Err(e) => e is Image,
        },
        r is Ok <==> step_example_spec(rgb@, depth@, *header, timestamp_bits, step_idx, total_frames) is Some,
{
    let jpeg = match encode_jpeg(rgb, header.color_width, header.color_height) {
        Ok(v) => v,
        Err(e) => {
            return Err(RldsError::Image(e));
        },
    };
    let samples = depth_sample_bytes(depth);
    proof {
        lemma_le16_samples_len(depth@);
    }
    let png = match encode_png_l16(samples.as_slice(), header.depth_width, header.depth_height) {
        Ok(v) => v,
        Err(e) => {
            return Err(RldsError::Image(e));
        },
    };
    let ghost jv = jpeg@;
    let ghost pv = png@;
    let last = step_idx == total_frames - 1;
    let mut features: Vec<(String, Feature)> = Vec::new();
    features.push((text("steps/is_first"), int_flag(step_idx == 0)));
    features.push((text("steps/is_last"), int_flag(last)));
    features.push((text("steps/is_terminal"), int_flag(last)));
    features.push((
        text("steps/observation/color_intrinsics"),
        floats4(header.color_fx, header.color_fy, header.color_ppx, header.color_ppy),
    ));
    features.push((text("steps/observation/depth"), bytes_feature(png)));
    features.push((
        text("steps/observation/depth_intrinsics"),
        floats4(header.depth_fx, header.depth_fy, header.depth_ppx, header.depth_ppy),
    ));
    features.push((text("steps/observation/extrinsic_R"), float_list(&header.extrinsic_rotation)));
    features.push((text("steps/observation/extrinsic_t"), float_list(&header.extrinsic_translation)));
    features.push((text("steps/observation/image"), bytes_feature(jpeg)));
    let mut ts: Vec<u32> = Vec::new();
    ts.push(timestamp_bits);
    assert(ts@ =~= seq![timestamp_bits]);
    features.push((text("steps/timestamp"), Feature::Float(ts)));
    proof {
        assert(entry_views(features@) =~= step_features(jv, pv, *header, timestamp_bits, step_idx, total_frames));
        lemma_step_keys_distinct(jv, pv, *header, timestamp_bits, step_idx, total_frames);
    }
    Ok(encode_example(&features))
}

} // verus!
