use fastdd::error::{ConfigError, CopyError};
use fastdd::plan::{block_count, plan_copy, registered_buffer_count, resolve_settings, Args};

fn args(ring_size: Option<u32>, num_buffers: Option<u64>, block_size: u64) -> Args {
    Args {
        input_file: String::from("src.bin"),
        output_file: String::from("dst.bin"),
        block_size,
        count: None,
        input_seek: 0,
        output_seek: 0,
        ring_size,
        num_buffers,
        progress: false,
    }
}

#[test]
fn block_count_rounds_up() {
    assert_eq!(block_count(0, 4096), 0);
    assert_eq!(block_count(4096, 4096), 1);
    assert_eq!(block_count(4097, 4096), 2);
    assert_eq!(block_count(5 * 1024 * 1024, 4096), 1280);
    assert_eq!(block_count(u64::MAX, 1), u64::MAX);
    assert_eq!(block_count(u64::MAX, 2), u64::MAX / 2 + 1);
}

#[test]
fn seek_beyond_end_is_rejected() {
    assert_eq!(plan_copy(10_000, 4096, None, 3, 0), Err(CopyError::SeekRange));
    assert_eq!(plan_copy(10_000, 4096, None, u64::MAX, 0), Err(CopyError::SeekRange));
}

#[test]
fn seek_to_end_gives_empty_range() {
    let p = plan_copy(8192, 4096, None, 2, 0).unwrap();
    assert_eq!(p.total_size, 0);
    assert_eq!(p.num_blocks, 0);
}

#[test]
fn count_caps_the_range() {
    let p = plan_copy(10_000, 4096, Some(1), 0, 0).unwrap();
    assert_eq!(p.total_size, 4096);
    assert_eq!(p.num_blocks, 1);
    let p = plan_copy(10_000, 4096, Some(5), 1, 0).unwrap();
    assert_eq!(p.total_size, 10_000 - 4096);
    assert_eq!(p.num_blocks, 2);
    let p = plan_copy(10_000, 4096, Some(u64::MAX), 0, 0).unwrap();
    assert_eq!(p.total_size, 10_000);
}

#[test]
fn output_range_must_fit() {
    assert_eq!(plan_copy(10, 2, None, 0, u64::MAX), Err(CopyError::OutputRange));
    assert_eq!(plan_copy(10, 1, None, 0, u64::MAX - 5), Err(CopyError::OutputRange));
    assert!(plan_copy(10, 1, None, 0, u64::MAX - 10).is_ok());
}

#[test]
fn registration_falls_back_under_budget() {
    assert_eq!(registered_buffer_count(128, 4096, 1 << 30), 128);
    assert_eq!(registered_buffer_count(128, 4096, 65536), 15);
    assert_eq!(registered_buffer_count(16, 4096, 65536), 15);
    assert_eq!(registered_buffer_count(15, 4096, 65536), 15);
    assert_eq!(registered_buffer_count(128, 4096, 4095), 0);
    assert_eq!(registered_buffer_count(128, 4096, 0), 0);
    assert_eq!(registered_buffer_count(u64::MAX, 4096, 65536), 15);
}

#[test]
fn settings_defaults_and_derivations() {
    let s = resolve_settings(&args(None, None, 4096)).unwrap();
    assert_eq!((s.ring_size, s.num_buffers), (256, 128));
    let s = resolve_settings(&args(Some(64), None, 4096)).unwrap();
    assert_eq!((s.ring_size, s.num_buffers), (64, 32));
    let s = resolve_settings(&args(Some(1), None, 4096)).unwrap();
    assert_eq!((s.ring_size, s.num_buffers), (1, 1));
    let s = resolve_settings(&args(None, Some(10), 512)).unwrap();
    assert_eq!((s.ring_size, s.num_buffers, s.block_size), (20, 10, 512));
    let s = resolve_settings(&args(Some(8), Some(100), 4096)).unwrap();
    assert_eq!((s.ring_size, s.num_buffers), (8, 100));
}

#[test]
fn settings_errors() {
    assert_eq!(resolve_settings(&args(Some(0), Some(1), 4096)), Err(ConfigError::ZeroRingOrBuffers));
    assert_eq!(resolve_settings(&args(Some(1), Some(0), 4096)), Err(ConfigError::ZeroRingOrBuffers));
    assert_eq!(resolve_settings(&args(Some(0), None, 4096)), Err(ConfigError::ZeroRingSize));
    assert_eq!(resolve_settings(&args(None, Some(0), 4096)), Err(ConfigError::ZeroBufferCount));
    assert_eq!(resolve_settings(&args(None, Some(1 << 31), 4096)), Err(ConfigError::RingSizeTooLarge));
    assert_eq!(resolve_settings(&args(None, None, 0)), Err(ConfigError::ZeroBlockSize));
}

#[test]
fn errors_describe_themselves() {
    assert_eq!(CopyError::SeekRange.describe(), "Invalid input seek offset");
    assert_eq!(ConfigError::ZeroBlockSize.describe(), "Block size must be greater than 0");
}
