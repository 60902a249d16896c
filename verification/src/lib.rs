//! Verified core of the `.egorec` recording toolchain: the binary container
//! format (reading, writing, scanning, validating, span copies), the H.264
//! Annex-B to MP4 remuxer and the elementary-stream proxy, the TFRecord,
//! protobuf and RLDS step encoders, and the decision functions of the
//! dataset viewer and its curation pipeline.
use vstd::prelude::*;

pub mod byte_order;
pub mod cli;
pub mod clip;
pub mod config;
pub mod convert;
pub mod curation;
pub mod format;
pub mod h264_annex_b;
pub mod import;
pub mod mp4_mux;
pub mod pipeline;
pub mod proxy;
pub mod reader;
pub mod recent;
pub mod rlds;
pub mod scanner;
pub mod text;
pub mod tfrecord;
pub mod video_server;
pub mod video;
pub mod viewer;
pub mod writer;

verus! {

} // verus!
