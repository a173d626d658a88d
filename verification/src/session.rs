//! The decisions of the capture loop: working sizes, camera warm-up and the
//! frame-time statistics. The loop itself, with its camera and window, runs
//! outside the library and hands each event to these functions.
use vstd::prelude::*;
use crate::config::PIXEL_BLOCK_SIZE;

verus! {

/// The optical flow runs on a grid this many times coarser than the texture.
pub const FLOW_SCALE: i32 = 4;

/// How many reads the camera gets to deliver its first picture.
pub const WARMUP_ATTEMPTS: u32 = 300;

/// The grid sizes derived from the camera picture.
#[derive(PartialEq, Eq, Structural, Clone, Copy, Debug)]
pub struct ProcessingSizes {
    /// Texture width: one texture pixel per block of camera pixels.
    pub small_width: i32,
    /// Texture height.
    pub small_height: i32,
    /// Width of the optical-flow grid.
    pub flow_width: i32,
    /// Height of the optical-flow grid.
    pub flow_height: i32,
}

/// The texture and flow sizes for a camera picture of `cols` by `rows`.
pub fn processing_sizes(cols: i32, rows: i32) -> (s: ProcessingSizes)
    requires
        0 <= cols,
        0 <= rows,
    ensures
        s.small_width == cols as int / PIXEL_BLOCK_SIZE as int,
        s.small_height == rows as int / PIXEL_BLOCK_SIZE as int,
        s.flow_width == cols as int / PIXEL_BLOCK_SIZE as int / FLOW_SCALE as int,
        s.flow_height == rows as int / PIXEL_BLOCK_SIZE as int / FLOW_SCALE as int,
{
    let block = PIXEL_BLOCK_SIZE as i32;
    let small_width = cols / block;
    let small_height = rows / block;
    ProcessingSizes {
        small_width,
        small_height,
        flow_width: small_width / FLOW_SCALE,
        flow_height: small_height / FLOW_SCALE,
    }
}

/// What the capture loop does after a read while waiting for the first picture.
#[derive(PartialEq, Eq, Structural, Clone, Copy, Debug)]
pub enum WarmupStep {
    /// A picture came: start.
    Ready,
    /// Nothing yet: pause, then read again.
    SleepAndRetry,
    /// Nothing yet and no read left: pause, then give up.
    SleepAndGiveUp,
}

/// The warm-up decision after read number `attempt` (counting from one).
pub fn warmup_step(attempt: u32, got_picture: bool) -> (step: WarmupStep)
    ensures
        got_picture ==> step == WarmupStep::Ready,
        !got_picture && attempt < WARMUP_ATTEMPTS ==> step == WarmupStep::SleepAndRetry,
        !got_picture && attempt >= WARMUP_ATTEMPTS ==> step == WarmupStep::SleepAndGiveUp,
{
    if got_picture {
        WarmupStep::Ready
    } else if attempt < WARMUP_ATTEMPTS {
        WarmupStep::SleepAndRetry
    } else {
        WarmupStep::SleepAndGiveUp
    }
}

/// Frame-time statistics since the last report.
pub struct FrameStats {
    /// Frames shown since the last report.
    pub frames: u32,
    /// Their total processing time, in microseconds.
    pub total_us: u128,
}

impl FrameStats {
    /// No frame yet.
    pub fn new() -> (s: FrameStats)
        ensures
            s.frames == 0,
            s.total_us == 0,
    {
        FrameStats { frames: 0, total_us: 0 }
    }

    /// Mean processing time per frame, in whole microseconds; zero before any frame.
    pub fn average_us(&self) -> (avg: u128)
        ensures
            self.frames == 0 ==> avg == 0,
            self.frames > 0 ==> avg == self.total_us as int / self.frames as int,
    {
        if self.frames > 0 {
            self.total_us / (self.frames as u128)
        } else {
            0
        }
    }

    /// Takes one frame that took `dt_us` microseconds. When a report is due,
    /// the mean time per frame comes back and the statistics start over.
    pub fn on_frame(&mut self, dt_us: u128, report_due: bool) -> (report: Option<u128>)
        requires
            old(self).frames < u32::MAX,
            old(self).total_us + dt_us <= u128::MAX,
        ensures
            report_due ==> report == Some(((old(self).total_us + dt_us) / (old(self).frames + 1) as int) as u128),
            report_due ==> final(self).frames == 0 && final(self).total_us == 0,
            !report_due ==> report.is_none(),
            !report_due ==> final(self).frames == old(self).frames + 1 && final(self).total_us
                == old(self).total_us + dt_us,
    {
        self.total_us = self.total_us + dt_us;
        self.frames = self.frames + 1;
        if report_due {
            let avg = self.average_us();
            self.frames = 0;
            self.total_us = 0;
            Some(avg)
        } else {
            None
        }
    }
}

} // verus!
