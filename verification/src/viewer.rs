//! Records the viewer exchanges with its front end, and the streaming state
//! of a recording.
use vstd::prelude::*;

verus! {

/// Whether a recording can be streamed to the player.
#[derive(Clone, Copy, PartialEq, Eq, Structural, Debug)]
pub enum ConversionStatus {
    Idle,
    Streamable,
    Error,
}

impl ConversionStatus {
    /// A recording whose RGB stream is H.264 (codec 2) is streamable as it
    /// is; any other waits for a conversion.
    pub fn for_rgb_codec(rgb_codec: u8) -> (s: ConversionStatus)
        ensures
            s == (if rgb_codec == 2 { ConversionStatus::Streamable } else { ConversionStatus::Idle }),
    {
        if rgb_codec == 2 {
            ConversionStatus::Streamable
        } else {
            ConversionStatus::Idle
        }
    }
}

/// Outcome of pruning a recording.
pub struct PruneResponse {
    pub status: String,
    pub name: String,
}

/// Progress of an activity analysis over several recordings.
pub struct AnalysisProgress {
    pub current: usize,
    pub total: usize,
    pub file: String,
}

/// A task of a LeRobot dataset.
pub struct TaskEntry {
    pub task_index: usize,
    pub task: String,
}

} // verus!
