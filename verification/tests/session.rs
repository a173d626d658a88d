use motion_illusion::config::{COLOR_LEVELS, MAX_FILE_SIZE, PIXEL_BLOCK_SIZE};
use motion_illusion::session::{processing_sizes, warmup_step, FrameStats, WarmupStep, WARMUP_ATTEMPTS};

#[test]
fn sizes_for_a_full_hd_camera() {
    let s = processing_sizes(1920, 1080);
    assert_eq!(s.small_width, 480);
    assert_eq!(s.small_height, 270);
    assert_eq!(s.flow_width, 120);
    assert_eq!(s.flow_height, 67);
}

#[test]
fn sizes_round_down() {
    let s = processing_sizes(7, 17);
    assert_eq!((s.small_width, s.small_height, s.flow_width, s.flow_height), (1, 4, 0, 1));
}

#[test]
fn configuration_values() {
    assert_eq!(PIXEL_BLOCK_SIZE, 4);
    assert_eq!(COLOR_LEVELS, 4);
    assert_eq!(MAX_FILE_SIZE, 52_428_800);
}

#[test]
fn warmup_waits_for_the_first_picture() {
    assert_eq!(warmup_step(1, true), WarmupStep::Ready);
    assert_eq!(warmup_step(1, false), WarmupStep::SleepAndRetry);
    assert_eq!(warmup_step(WARMUP_ATTEMPTS - 1, false), WarmupStep::SleepAndRetry);
    assert_eq!(warmup_step(WARMUP_ATTEMPTS, false), WarmupStep::SleepAndGiveUp);
    assert_eq!(warmup_step(WARMUP_ATTEMPTS, true), WarmupStep::Ready);
}

#[test]
fn frame_stats_report_the_mean_and_start_over() {
    let mut s = FrameStats::new();
    assert_eq!(s.average_us(), 0);
    assert_eq!(s.on_frame(100, false), None);
    assert_eq!(s.on_frame(250, false), None);
    assert_eq!(s.frames, 2);
    assert_eq!(s.total_us, 350);
    assert_eq!(s.on_frame(51, true), Some(133));
    assert_eq!(s.frames, 0);
    assert_eq!(s.total_us, 0);
    assert_eq!(s.on_frame(9, true), Some(9));
}
