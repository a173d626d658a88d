use vstd::prelude::*;

verus! {

/// Side of the square block of camera pixels that becomes one texture pixel.
pub const PIXEL_BLOCK_SIZE: u32 = 4;

/// Side of the square output picture.
pub const OUTPUT_SIZE: u32 = 640;

/// Number of brightness levels a quantised channel keeps.
pub const COLOR_LEVELS: u32 = 4;

/// Longest recording, in seconds.
pub const MAX_DURATION_SEC: u32 = 60;

/// Largest accepted input file, in bytes.
pub const MAX_FILE_SIZE: u64 = 50 * 1024 * 1024;

} // verus!
