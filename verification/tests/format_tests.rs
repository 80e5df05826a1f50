//! Decimal rendering, date <-> path/file-name mappings, and the metadata
//! sidecar text.

use ompd::date::{parse_date_from_shot_dir, parse_video_file_name, Date};
use ompd::frames::{
    encode_metadata_csv, frame_file_name, metadata_csv_line, parse_frame_file_name,
    parse_metadata_csv, FrameRecord,
};
use ompd::strnum::{parse_u32, u32_to_string, zero_padded};

#[test]
fn decimal_rendering() {
    assert_eq!(u32_to_string(0).as_str(), "0");
    assert_eq!(u32_to_string(7).as_str(), "7");
    assert_eq!(u32_to_string(12345).as_str(), "12345");
    assert_eq!(u32_to_string(u32::MAX).as_str(), "4294967295");
    assert_eq!(zero_padded(7, 5).as_str(), "00007");
    assert_eq!(zero_padded(123456, 5).as_str(), "123456");
    assert_eq!(zero_padded(0, 2).as_str(), "00");
}

#[test]
fn decimal_parsing() {
    assert_eq!(parse_u32("0"), Some(0));
    assert_eq!(parse_u32("0042"), Some(42));
    assert_eq!(parse_u32("4294967295"), Some(u32::MAX));
    assert_eq!(parse_u32("4294967296"), None);
    assert_eq!(parse_u32(""), None);
    assert_eq!(parse_u32("12a4"), None);
    assert_eq!(parse_u32("-5"), None);
}

#[test]
fn shot_dir_mapping_round_trip() {
    let d = Date { year: 2024, month: 3, day: 9 };
    let path = d.to_shot_dir_in("/shots");
    assert_eq!(path.as_str(), "/shots/2024/03/09");
    assert_eq!(parse_date_from_shot_dir(path.as_str()), Some(d));
}

#[test]
fn shot_dir_parse_rejects_bad_paths() {
    assert_eq!(parse_date_from_shot_dir("/shots/2024/13/09"), None);
    assert_eq!(parse_date_from_shot_dir("/shots/2024/00/09"), None);
    assert_eq!(parse_date_from_shot_dir("/shots/2024/03/32"), None);
    assert_eq!(parse_date_from_shot_dir("/shots/2024/3/9"), None);
    assert_eq!(parse_date_from_shot_dir("short"), None);
    assert_eq!(parse_date_from_shot_dir("/shots/year/mo/dy"), None);
}

#[test]
fn video_file_name_round_trip() {
    let d = Date { year: 2026, month: 1, day: 1 };
    let name = d.video_file_name("mp4");
    assert_eq!(name.as_str(), "ompd-2026-01-01.mp4");
    assert_eq!(parse_video_file_name(name.as_str(), "mp4"), Some(d));
    assert_eq!(parse_video_file_name(name.as_str(), "mkv"), None);
    assert_eq!(parse_video_file_name("ompd-2026-1-1.mp4", "mp4"), None);
    assert_eq!(parse_video_file_name("movie-2026-01-01.mp4", "mp4"), None);
    assert_eq!(parse_video_file_name("ompd-2026-13-01.mp4", "mp4"), None);
}

#[test]
fn frame_file_name_round_trip() {
    let name = frame_file_name(42, "jpeg");
    assert_eq!(name.as_str(), "00042.jpeg");
    assert_eq!(parse_frame_file_name("00042.jpeg", "jpeg"), Some(42));
    assert_eq!(parse_frame_file_name("00042.jpeg", "png"), None);
    assert_eq!(parse_frame_file_name("0042.jpeg", "jpeg"), None);
    assert_eq!(parse_frame_file_name("00a42.jpeg", "jpeg"), None);
    assert_eq!(parse_frame_file_name("frame_metadata.csv", "jpeg"), None);
}

#[test]
fn date_ordering() {
    let a = Date { year: 2024, month: 3, day: 9 };
    let b = Date { year: 2024, month: 3, day: 10 };
    let c = Date { year: 2024, month: 4, day: 1 };
    let d = Date { year: 2025, month: 1, day: 1 };
    assert!(a.before(&b));
    assert!(b.before(&c));
    assert!(c.before(&d));
    assert!(!b.before(&a));
    assert!(!a.before(&a));
}

#[test]
fn sidecar_encoding_is_exact() {
    let rows = vec![
        FrameRecord { frame_index: 0, width: 1920, height: 1080 },
        FrameRecord { frame_index: 1, width: 2560, height: 1440 },
    ];
    let text = encode_metadata_csv(&rows);
    assert_eq!(
        text.as_str(),
        "frame,width,height\n\
         0000000000,0000001920,0000001080\n\
         0000000001,0000002560,0000001440\n"
    );
    let line = metadata_csv_line(&rows[1]);
    assert_eq!(line.as_str(), "0000000001,0000002560,0000001440\n");
}

#[test]
fn sidecar_parse_round_trip() {
    let rows = vec![
        FrameRecord { frame_index: 0, width: 3, height: 2 },
        FrameRecord { frame_index: 1, width: 5, height: 4 },
        FrameRecord { frame_index: 7, width: 4294967295, height: 1 },
    ];
    let text = encode_metadata_csv(&rows);
    assert_eq!(parse_metadata_csv(text.as_str()), Some(rows));
}

#[test]
fn sidecar_parse_rejects_malformed_text() {
    assert_eq!(parse_metadata_csv(""), None);
    assert_eq!(parse_metadata_csv("frame,width,height"), None);
    // unpadded fields are not the sidecar rendering
    assert_eq!(parse_metadata_csv("frame,width,height\n1,2,3\n"), None);
    // a field over u32::MAX is no record
    assert_eq!(
        parse_metadata_csv("frame,width,height\n9999999999,0000000001,0000000001\n"),
        None
    );
    // wrong separator
    assert_eq!(
        parse_metadata_csv("frame,width,height\n0000000001;0000000001,0000000001\n"),
        None
    );
    // trailing garbage breaks the fixed row length
    assert_eq!(
        parse_metadata_csv("frame,width,height\n0000000001,0000000001,0000000001\nx"),
        None
    );
}
