//! Directory compression, metadata generation, the retention sweep and the
//! startup backfill reconciliation — including the tests the engine grew up
//! with, adapted to the in-memory directory model.

use std::io::Cursor;

use image::DynamicImage;
use image::RgbImage;

use ompd::back_filler::BackFiller;
use ompd::config::Config;
use ompd::date::Date;
use ompd::dir_manager::{DirError, DirFile, DirManager};
use ompd::frames::{encode_metadata_csv, FrameRecord};

fn test_config() -> Config {
    Config {
        interval: 20,
        max_sleep_secs: 180,
        shot_output_dir: "/data/shots".to_string(),
        vid_output_dir: "/data/videos".to_string(),
        ffmpeg: "ffmpeg".to_string(),
        handle_old_dirs_on_startup: true,
        shot_type: "jpeg".to_string(),
        compress_shots: true,
        video_type: "mkv".to_string(),
        vid_scale_percent: 100,
        keep_count: Some(2),
    }
}

fn png_bytes(w: u32, h: u32) -> Vec<u8> {
    let img = DynamicImage::ImageRgb8(RgbImage::new(w, h));
    let mut buf = Vec::new();
    img.write_to(&mut Cursor::new(&mut buf), image::ImageOutputFormat::Png)
        .expect("in-memory png encoding");
    buf
}

fn file(name: &str, data: &[u8]) -> DirFile {
    DirFile { name: name.to_string(), is_symlink: false, data: data.to_vec() }
}

fn date(y: u16, m: u8, d: u8) -> Date {
    Date { year: y, month: m, day: d }
}

#[test]
fn compress_then_decompress_restores_every_affected_file() {
    let frame0 = b"frame zero bytes frame zero bytes frame zero bytes".to_vec();
    let frame1 = b"frame one bytes".to_vec();
    let sidecar = b"frame,width,height\n".to_vec();
    let notes = b"unrelated".to_vec();
    let files = vec![
        file("00000.jpeg", &frame0),
        file("00001.jpeg", &frame1),
        file("frame_metadata.csv", &sidecar),
        file("notes.txt", &notes),
        DirFile { name: "00002.jpeg".to_string(), is_symlink: true, data: Vec::new() },
    ];
    let packed = DirManager::compress(&files, "jpeg");
    assert_eq!(packed.len(), 5);
    assert_eq!(packed[0].name.as_str(), "00000.jpeg.zst");
    assert_eq!(packed[1].name.as_str(), "00001.jpeg.zst");
    assert_eq!(packed[2].name.as_str(), "frame_metadata.csv.zst");
    // compression actually transformed the bytes
    assert_ne!(packed[0].data, frame0);
    // unrelated files and symlinks are untouched
    assert_eq!(packed[3].name.as_str(), "notes.txt");
    assert_eq!(packed[3].data, notes);
    assert_eq!(packed[4].name.as_str(), "00002.jpeg");
    assert!(packed[4].is_symlink);

    let unpacked = DirManager::decompress(&packed);
    assert_eq!(unpacked.len(), 5);
    assert_eq!(unpacked[0].name.as_str(), "00000.jpeg");
    assert_eq!(unpacked[0].data, frame0);
    assert_eq!(unpacked[1].name.as_str(), "00001.jpeg");
    assert_eq!(unpacked[1].data, frame1);
    assert_eq!(unpacked[2].name.as_str(), "frame_metadata.csv");
    assert_eq!(unpacked[2].data, sidecar);
    assert_eq!(unpacked[3].data, notes);
}

#[test]
fn generate_metadata_reads_dimensions_in_index_order() {
    let files = vec![
        file("00001.png", &png_bytes(5, 4)),
        file("00000.png", &png_bytes(3, 2)),
        file("notes.txt", b"not a frame"),
    ];
    let rows = DirManager::generate_metadata(&files, "png").expect("two readable frames");
    assert_eq!(
        rows,
        vec![
            FrameRecord { frame_index: 0, width: 3, height: 2 },
            FrameRecord { frame_index: 1, width: 5, height: 4 },
        ]
    );
}

#[test]
fn generate_metadata_error_cases() {
    let empty: Vec<DirFile> = vec![file("notes.txt", b"no frames here")];
    assert!(matches!(
        DirManager::generate_metadata(&empty, "png"),
        Err(DirError::NoFramesFound)
    ));
    let bad = vec![file("00000.png", b"these bytes are no image")];
    assert!(matches!(
        DirManager::generate_metadata(&bad, "png"),
        Err(DirError::UnreadableFrame)
    ));
}

#[test]
fn metadata_prefers_readable_sidecar_text() {
    let rows = vec![FrameRecord { frame_index: 0, width: 9, height: 7 }];
    let text = encode_metadata_csv(&rows);
    // a sidecar covering the frames on disk wins, dimensions and all
    let files = vec![file("00000.png", &png_bytes(3, 2))];
    let got = DirManager::get_or_generate_metadata(Some(text.as_str()), &files, "png")
        .expect("sidecar parses");
    assert_eq!(got, rows);
    // an unreadable sidecar falls back to regeneration
    let got = DirManager::get_or_generate_metadata(Some("scribbles"), &files, "png")
        .expect("regenerated");
    assert_eq!(got, vec![FrameRecord { frame_index: 0, width: 3, height: 2 }]);
    // no sidecar at all: regenerate
    let got = DirManager::get_or_generate_metadata(None, &files, "png").expect("regenerated");
    assert_eq!(got, vec![FrameRecord { frame_index: 0, width: 3, height: 2 }]);
}

#[test]
fn metadata_regenerates_when_sidecar_is_stale() {
    // the sidecar still lists a frame that no longer exists on disk
    let stale_rows = vec![
        FrameRecord { frame_index: 0, width: 9, height: 7 },
        FrameRecord { frame_index: 1, width: 9, height: 7 },
    ];
    let text = encode_metadata_csv(&stale_rows);
    let files = vec![file("00000.png", &png_bytes(3, 2))];
    let got = DirManager::get_or_generate_metadata(Some(text.as_str()), &files, "png")
        .expect("regenerated");
    assert_eq!(got, vec![FrameRecord { frame_index: 0, width: 3, height: 2 }]);
    // and when a frame on disk is missing its row
    let short_rows = vec![FrameRecord { frame_index: 1, width: 9, height: 7 }];
    let text = encode_metadata_csv(&short_rows);
    let files = vec![file("00000.png", &png_bytes(3, 2)), file("00001.png", &png_bytes(5, 4))];
    let got = DirManager::get_or_generate_metadata(Some(text.as_str()), &files, "png")
        .expect("regenerated");
    assert_eq!(
        got,
        vec![
            FrameRecord { frame_index: 0, width: 3, height: 2 },
            FrameRecord { frame_index: 1, width: 5, height: 4 },
        ]
    );
}

#[test]
fn min_dimension_scans_both_axes() {
    let rows = vec![
        FrameRecord { frame_index: 0, width: 1920, height: 1080 },
        FrameRecord { frame_index: 1, width: 800, height: 1600 },
    ];
    assert_eq!(ompd::dir_manager::min_dimension(&rows), Some(800));
    assert_eq!(ompd::dir_manager::min_dimension(&Vec::new()), None);
}

#[test]
fn retention_keeps_today_and_the_two_most_recent() {
    let d1 = date(2024, 1, 1);
    let d2 = date(2024, 1, 2);
    let d3 = date(2024, 1, 3);
    let d4 = date(2024, 1, 4);
    let d5 = date(2024, 1, 5);
    let today = date(2024, 1, 6);
    let shots = vec![d1, d2, d3, d4, d5];
    let videos: Vec<(Date, u64)> = shots.iter().map(|d| (*d, 1000)).collect();
    let doomed = DirManager::cleanup_old_shot_dirs(&shots, &videos, 2, &today);
    assert_eq!(doomed, vec![d1, d2, d3]);
}

#[test]
fn retention_spares_dirs_without_a_nonempty_video() {
    let d1 = date(2024, 1, 1);
    let d2 = date(2024, 1, 2);
    let d3 = date(2024, 1, 3);
    let today = date(2024, 1, 9);
    let shots = vec![d1, d2, d3];
    // d1 has no video at all, d2 only an empty one
    let videos = vec![(d2, 0), (d3, 500)];
    let doomed = DirManager::cleanup_old_shot_dirs(&shots, &videos, 0, &today);
    assert_eq!(doomed, vec![d3]);
}

#[test]
fn retention_never_selects_today() {
    let today = date(2024, 1, 3);
    let shots = vec![date(2024, 1, 1), date(2024, 1, 2), today];
    let videos: Vec<(Date, u64)> = shots.iter().map(|d| (*d, 1)).collect();
    let doomed = DirManager::cleanup_old_shot_dirs(&shots, &videos, 0, &today);
    assert_eq!(doomed, vec![date(2024, 1, 1), date(2024, 1, 2)]);
}

#[test]
fn backfill_processes_shot_dates_without_videos_except_today() {
    let b = BackFiller::new(test_config(), date(2024, 3, 5));
    let vid_names = vec![
        "ompd-2024-03-03.mkv".to_string(),
        "ompd-2024-03-04.mkv".to_string(),
        "leftovers.txt".to_string(),
    ];
    let shot_paths = vec![
        "/data/shots/2024/03/01".to_string(),
        "/data/shots/2024/03/02".to_string(),
        "/data/shots/2024/03/03".to_string(),
        "/data/shots/2024/03/04".to_string(),
        "/data/shots/2024/03/05".to_string(),
    ];
    let backlog = b.run(&vid_names, &shot_paths);
    assert_eq!(backlog, vec![date(2024, 3, 1), date(2024, 3, 2)]);
}

#[test]
fn backfill_skips_unparsable_entries() {
    let b = BackFiller::new(test_config(), date(2024, 3, 5));
    let vid_names = vec!["ompd-2024-XX-03.mkv".to_string()];
    let shot_paths = vec![
        "/data/shots/2024/03/01".to_string(),
        "/data/shots/stray-directory".to_string(),
    ];
    let backlog = b.run(&vid_names, &shot_paths);
    assert_eq!(backlog, vec![date(2024, 3, 1)]);
}
