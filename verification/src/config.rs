//! The viewer's persisted settings: the recordings directory.
use vstd::prelude::*;

verus! {

/// The settings file.
pub struct ConfigFile {
    pub version: u8,
    pub recordings_dir: Option<String>,
}

impl Default for ConfigFile {
    /// Version 1, no recordings directory.
    fn default() -> (c: Self)
        ensures
            c.version == 1,
            c.recordings_dir is None,
    {
        ConfigFile { version: 1, recordings_dir: None }
    }
}

/// The recordings directory the settings hold, if it is set and not empty.
pub fn load_recordings_dir(config: &ConfigFile) -> (dir: Option<String>)
    ensures
        match config.recordings_dir {
            Some(d) => if d@.len() > 0 { dir == Some(d) } else { dir is None },
            None => dir is None,
        },
{
    match &config.recordings_dir {
        Some(d) => {
            if d.as_str().unicode_len() > 0 {
                Some(d.clone())
            } else {
                None
            }
        },
        None => None,
    }
}

/// Sets the recordings directory, keeping the rest of the settings.
pub fn save_recordings_dir(config: &mut ConfigFile, path: String)
    ensures
        final(config).version == old(config).version,
        final(config).recordings_dir == Some(path),
{
    config.recordings_dir = Some(path);
}

} // verus!
