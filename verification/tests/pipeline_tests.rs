//! End-to-end slices of the pipeline over the in-memory directory model:
//! sidecar generation and the mixed-resolution encoder setup.

use std::io::Cursor;

use image::DynamicImage;
use image::RgbImage;

use ompd::config::Config;
use ompd::dir_manager::{DirFile, DirManager};
use ompd::frames::encode_metadata_csv;
use ompd::movie_maker::MovieMaker;

fn test_config(shot_dir: &str, vid_dir: &str) -> Config {
    Config {
        interval: 20,
        max_sleep_secs: 180,
        shot_output_dir: shot_dir.to_string(),
        vid_output_dir: vid_dir.to_string(),
        ffmpeg: "ffmpeg".to_string(),
        handle_old_dirs_on_startup: false,
        shot_type: "jpeg".to_string(),
        compress_shots: false,
        video_type: "mp4".to_string(),
        vid_scale_percent: 100,
        keep_count: None,
    }
}

fn jpeg_bytes(w: u32, h: u32) -> Vec<u8> {
    let img = DynamicImage::ImageRgb8(RgbImage::new(w, h));
    let mut buf = Vec::new();
    img.write_to(&mut Cursor::new(&mut buf), image::ImageOutputFormat::Jpeg(90))
        .expect("in-memory jpeg encoding");
    buf
}

fn frame_file(index: u32, w: u32, h: u32) -> DirFile {
    DirFile {
        name: format!("{:05}.jpeg", index),
        is_symlink: false,
        data: jpeg_bytes(w, h),
    }
}

#[test]
fn test_metadata_csv_generation() {
    let fixtures = vec![frame_file(0, 32, 24), frame_file(1, 64, 48)];
    assert!(fixtures.len() >= 2, "Need at least 2 fixture images");

    let rows = DirManager::generate_metadata(&fixtures, "jpeg").unwrap();
    let csv = encode_metadata_csv(&rows);

    assert!(csv.len() > 0, "Metadata CSV should be created");
    assert!(csv.as_str().contains("frame,width,height"));
    assert_eq!(rows.len(), 2);
    assert_eq!((rows[0].width, rows[0].height), (32, 24));
    assert_eq!((rows[1].width, rows[1].height), (64, 48));
}

#[test]
fn test_video_with_mixed_resolutions() {
    let config = test_config("/work/shots", "/work/videos");
    let maker = MovieMaker::new(config);

    let output_file = "/work/videos/ompd-2026-01-01.mp4";
    let args = maker.build_ffmpeg_args("/work/shots/2026/01/01", output_file, 1920, 1080);
    let args_str: Vec<String> = args.iter().map(|s| s.to_string()).collect();
    let args_str = args_str.join(" ");

    assert!(args_str.contains("-vf"), "Should use -vf filter. Got: {}", args_str);
    assert!(
        args_str.contains("scale=") && args_str.contains("pad="),
        "Should have scale/pad. Got: {}",
        args_str
    );
    assert!(args_str.contains("scale=1920:1080"));
    assert!(args_str.contains("ompd-2026-01-01.mp4"));
}

#[test]
fn test_backfiller_generates_metadata() {
    // a legacy directory: frames on disk, no sidecar yet
    let fixtures = vec![frame_file(0, 40, 30)];
    assert!(!fixtures.is_empty(), "Need at least 1 fixture image");
    let had_sidecar = fixtures.iter().any(|f| f.name == "frame_metadata.csv");
    assert!(!had_sidecar, "CSV should not exist initially");

    let rows = DirManager::get_or_generate_metadata(None, &fixtures, "jpeg").unwrap();
    let csv = encode_metadata_csv(&rows);

    assert!(csv.as_str().starts_with("frame,width,height"), "Metadata CSV should be generated");
    assert_eq!(rows.len(), 1);
}
