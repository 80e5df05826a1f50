//! The immutable configuration the capture engine runs under.
//!
//! Loading, persisting and defaulting the configuration file is the
//! surrounding binary's business; the library only holds the values and
//! checks them.

use vstd::prelude::*;

use crate::strnum::str_eq;

verus! {

/// The settings the engine consumes: root paths, tick interval, the gap
/// threshold, the still-image and video formats, the resolution scale factor
/// (in percent, so it stays an integer) and the retention count.
#[derive(Clone, Debug)]
pub struct Config {
    /// Seconds between capture ticks.
    pub interval: u64,
    /// A gap longer than this many seconds is a blackout or a day rollover.
    pub max_sleep_secs: i64,
    pub shot_output_dir: String,
    pub vid_output_dir: String,
    /// Path of the encoder binary.
    pub ffmpeg: String,
    /// Whether to reconcile history (backfill) at startup.
    pub handle_old_dirs_on_startup: bool,
    /// Still-image format of the captured frames, as a file extension.
    pub shot_type: String,
    /// Compress a day's frame files once its video is made.
    pub compress_shots: bool,
    /// Container extension of the produced videos.
    pub video_type: String,
    /// Scale factor applied to the analyzed frame dimensions, in percent.
    pub vid_scale_percent: u32,
    /// Keep the frame directories of this many recent days; `None` disables
    /// the retention sweep.
    pub keep_count: Option<u32>,
}

#[derive(Debug, PartialEq, Eq)]
pub enum ConfigError {
    /// `max_sleep_secs` must be positive: the engine cannot sleep backwards.
    NonPositiveMaxSleep,
    /// `interval` must be positive: it divides the elapsed time of a gap.
    NonPositiveInterval,
    /// `shot_type` is not one of the supported still-image formats.
    InvalidShotType,
    /// `video_type` must be a non-empty container extension: it names the
    /// output files and is looked up in the encoder's muxer listing.
    EmptyVideoType,
    /// `vid_scale_percent` must be positive.
    NonPositiveScale,
}

/// The still-image formats the engine accepts as `shot_type`.
pub open spec fn valid_shot_type(s: Seq<char>) -> bool {
    ||| s == "bmp"@
    ||| s == "gif"@
    ||| s == "jpeg"@
    ||| s == "jpg"@
    ||| s == "png"@
    ||| s == "pnm"@
    ||| s == "tga"@
    ||| s == "tiff"@
    ||| s == "webp"@
}

impl Config {
    /// All checks a configuration must pass before the engine runs under it.
    pub open spec fn valid(self) -> bool {
        &&& self.max_sleep_secs > 0
        &&& self.interval > 0
        &&& valid_shot_type(self.shot_type@)
        &&& self.video_type@.len() > 0
        &&& self.vid_scale_percent > 0
    }

    /// Checks the configured values, reporting the first violation in the
    /// order the checks run.
    pub fn validate(&self) -> (r: Result<(), ConfigError>)
        ensures
            r is Ok <==> self.valid(),
            r == Result::<(), ConfigError>::Err(ConfigError::NonPositiveMaxSleep) <==> self.max_sleep_secs <= 0,
            r == Result::<(), ConfigError>::Err(ConfigError::NonPositiveInterval) <==> (self.max_sleep_secs > 0
                && self.interval == 0),
            r == Result::<(), ConfigError>::Err(ConfigError::InvalidShotType) <==> (self.max_sleep_secs > 0
                && self.interval > 0 && !valid_shot_type(self.shot_type@)),
            r == Result::<(), ConfigError>::Err(ConfigError::EmptyVideoType) <==> (self.max_sleep_secs > 0
                && self.interval > 0 && valid_shot_type(self.shot_type@)
                && self.video_type@.len() == 0),
            r == Result::<(), ConfigError>::Err(ConfigError::NonPositiveScale) <==> (self.max_sleep_secs > 0
                && self.interval > 0 && valid_shot_type(self.shot_type@)
                && self.video_type@.len() > 0 && self.vid_scale_percent == 0),
    {
        if self.max_sleep_secs <= 0 {
            return Err(ConfigError::NonPositiveMaxSleep);
        }
        if self.interval == 0 {
            return Err(ConfigError::NonPositiveInterval);
        }
        let st = self.shot_type.as_str();
        let ok = str_eq(st, "bmp") || str_eq(st, "gif") || str_eq(st, "jpeg") || str_eq(st, "jpg")
            || str_eq(st, "png") || str_eq(st, "pnm") || str_eq(st, "tga") || str_eq(st, "tiff")
            || str_eq(st, "webp");
        if !ok {
            return Err(ConfigError::InvalidShotType);
        }
        if self.video_type.as_str().unicode_len() == 0 {
            return Err(ConfigError::EmptyVideoType);
        }
        if self.vid_scale_percent == 0 {
            return Err(ConfigError::NonPositiveScale);
        }
        Ok(())
    }
}

} // verus!
