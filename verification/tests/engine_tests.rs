//! The capture tick, blackout repair, dimension analysis, frame repair and
//! the encoder invocation.

use ompd::capturer::{human_duration, fit_font_size, Capturer, ChangeType, ShotDirModel};
use ompd::config::{Config, ConfigError};
use ompd::date::Date;
use ompd::frames::FrameRecord;
use ompd::movie_maker::{
    analyze_frame_dimensions, fix_missing_frames, has_muxer, CopyOp, FileEntry, MovieError,
    MovieMaker,
};

fn test_config() -> Config {
    Config {
        interval: 20,
        max_sleep_secs: 180,
        shot_output_dir: "/data/shots".to_string(),
        vid_output_dir: "/data/videos".to_string(),
        ffmpeg: "ffmpeg".to_string(),
        handle_old_dirs_on_startup: false,
        shot_type: "jpeg".to_string(),
        compress_shots: true,
        video_type: "mp4".to_string(),
        vid_scale_percent: 100,
        keep_count: Some(2),
    }
}

fn entry(name: &str) -> FileEntry {
    FileEntry { name: name.to_string(), is_symlink: false }
}

fn symlink_entry(name: &str) -> FileEntry {
    FileEntry { name: name.to_string(), is_symlink: true }
}

#[test]
fn uninterrupted_ticks_store_consecutive_indices() {
    let mut c = Capturer::new(20, "jpeg");
    let mut dir = ShotDirModel { frames: Vec::new(), rows: Vec::new() };
    let n0 = c.store(&mut dir, 1920, 1080);
    let n1 = c.store(&mut dir, 1920, 1080);
    let n2 = c.store(&mut dir, 2560, 1440);
    assert_eq!(n0.as_str(), "00000.jpeg");
    assert_eq!(n1.as_str(), "00001.jpeg");
    assert_eq!(n2.as_str(), "00002.jpeg");
    assert_eq!(dir.frames, vec![0, 1, 2]);
    assert_eq!(
        dir.rows,
        vec![
            FrameRecord { frame_index: 0, width: 1920, height: 1080 },
            FrameRecord { frame_index: 1, width: 1920, height: 1080 },
            FrameRecord { frame_index: 2, width: 2560, height: 1440 },
        ]
    );
    assert_eq!(c.curr_frame, 3);
}

#[test]
fn discover_counts_existing_frames() {
    let mut c = Capturer::new(20, "jpeg");
    let entries = vec![
        entry("00000.jpeg"),
        entry("00001.jpeg"),
        symlink_entry("00002.jpeg"),
        entry("frame_metadata.csv"),
        entry("00003.png"),
    ];
    c.discover_current_frame(&entries);
    // symlinked frame references occupy indices too; foreign files do not
    assert_eq!(c.curr_frame, 3);
}

#[test]
fn blackout_synthesizes_floor_elapsed_over_interval() {
    let mut c = Capturer::new(20, "jpeg");
    c.set_current_frame(5);
    let rows = vec![FrameRecord { frame_index: 4, width: 1280, height: 720 }];
    let today = Date { year: 2024, month: 3, day: 9 };
    let (change, plan) = c.deal_with_change(&today, &today, 100, &rows);
    assert!(matches!(change, ChangeType::Nop));
    let plan = plan.expect("a blackout of five intervals plans filler frames");
    assert_eq!(plan.missed_frames, 5);
    assert_eq!(plan.filler_index, 5);
    assert_eq!(plan.filler_name.as_str(), "00005.jpeg");
    let links: Vec<&str> = plan.link_names.iter().map(|s| s.as_str()).collect();
    assert_eq!(links, vec!["00006.jpeg", "00007.jpeg", "00008.jpeg", "00009.jpeg"]);
    assert_eq!(c.curr_frame, 10);
    assert_eq!(plan.text.as_str(), "~ 2 mins go by");
    // sized to the most recent metadata row
    assert_eq!((plan.width, plan.height), (1280, 720));
}

#[test]
fn blackout_without_metadata_uses_default_dims() {
    let mut c = Capturer::new(10, "png");
    let plan = c.deal_with_blackout(25, &Vec::new()).expect("two intervals passed");
    assert_eq!(plan.missed_frames, 2);
    assert_eq!((plan.width, plan.height), (860, 360));
    assert_eq!(c.curr_frame, 2);
}

#[test]
fn day_rollover_is_reported_not_repaired() {
    let mut c = Capturer::new(20, "jpeg");
    c.set_current_frame(7);
    let yesterday = Date { year: 2024, month: 3, day: 9 };
    let today = Date { year: 2024, month: 3, day: 10 };
    let (change, plan) = c.deal_with_change(&yesterday, &today, 30000, &Vec::new());
    assert!(matches!(change, ChangeType::NewDay));
    assert!(plan.is_none());
    assert_eq!(c.curr_frame, 7);
}

#[test]
fn human_durations() {
    assert_eq!(human_duration(0).as_str(), "~ 0 sec");
    assert_eq!(human_duration(1).as_str(), "~ 1 sec");
    assert_eq!(human_duration(45).as_str(), "~ 45 secs");
    assert_eq!(human_duration(61).as_str(), "~ 1 mins");
    assert_eq!(human_duration(90).as_str(), "~ 2 mins");
    assert_eq!(human_duration(3599).as_str(), "~ 60 mins");
    assert_eq!(human_duration(3600).as_str(), "~ 1.0 hr");
    assert_eq!(human_duration(5400).as_str(), "~ 1.5 hrs");
    assert_eq!(human_duration(7200).as_str(), "~ 2.0 hrs");
}

#[test]
fn font_fits_within_eighty_percent_of_width() {
    // 1000 px measured against a 860 px frame: budget is 688 px
    assert_eq!(fit_font_size(80, 1000, 860), 55);
    // within budget: unchanged
    assert_eq!(fit_font_size(80, 100, 860), 80);
}

#[test]
fn repair_fills_gaps_from_the_previous_frame() {
    let entries = vec![
        entry("00000.ext"),
        entry("00002.ext"),
        entry("00003.ext"),
        entry("00005.ext"),
        entry("frame_metadata.csv"),
    ];
    let plan = fix_missing_frames(&entries, "ext").expect("frames exist");
    assert_eq!(plan.frame_count, 6);
    assert_eq!(
        plan.ops,
        vec![
            CopyOp { src_index: 0, dst_index: 1 },
            CopyOp { src_index: 3, dst_index: 4 },
        ]
    );

    // applying the plan as file copies yields a contiguous run where each
    // filled slot carries its predecessor's bytes
    let mut contents: Vec<Option<Vec<u8>>> = vec![None; plan.frame_count as usize];
    for i in [0u32, 2, 3, 5] {
        contents[i as usize] = Some(format!("frame {i}").into_bytes());
    }
    for op in plan.ops.iter() {
        contents[op.dst_index as usize] = contents[op.src_index as usize].clone();
    }
    assert!(contents.iter().all(|c| c.is_some()));
    assert_eq!(contents[1], contents[0]);
    assert_eq!(contents[4], contents[3]);
}

#[test]
fn repair_duplicates_earliest_into_missing_head() {
    let entries = vec![entry("00002.jpeg"), entry("00003.jpeg")];
    let plan = fix_missing_frames(&entries, "jpeg").expect("frames exist");
    assert_eq!(plan.frame_count, 4);
    assert_eq!(
        plan.ops,
        vec![
            CopyOp { src_index: 2, dst_index: 0 },
            CopyOp { src_index: 2, dst_index: 1 },
        ]
    );
}

#[test]
fn repair_of_contiguous_directory_plans_nothing() {
    let entries = vec![entry("00000.jpeg"), entry("00001.jpeg"), entry("00002.jpeg")];
    let plan = fix_missing_frames(&entries, "jpeg").expect("frames exist");
    assert_eq!(plan.frame_count, 3);
    assert!(plan.ops.is_empty());
}

#[test]
fn repair_fails_on_empty_directory() {
    let entries = vec![entry("frame_metadata.csv"), symlink_entry("00000.jpeg")];
    // only a symlink and a sidecar: a symlink is no source frame
    assert!(matches!(
        fix_missing_frames(&entries, "jpeg"),
        Err(MovieError::NoFramesAtAll)
    ));
}

#[test]
fn dimensions_use_most_common_pair_scaled_and_evened() {
    let rows = vec![
        FrameRecord { frame_index: 0, width: 1920, height: 1080 },
        FrameRecord { frame_index: 1, width: 1920, height: 1080 },
        FrameRecord { frame_index: 2, width: 2560, height: 1440 },
        FrameRecord { frame_index: 3, width: 3420, height: 2224 },
    ];
    assert_eq!(analyze_frame_dimensions(&rows, 50), (960, 540));
    assert_eq!(analyze_frame_dimensions(&rows, 100), (1920, 1080));
    // an odd scaled axis is rounded up to even
    let (w, h) = analyze_frame_dimensions(&rows, 33);
    assert_eq!(w % 2, 0);
    assert_eq!(h % 2, 0);
    assert_eq!((w, h), (634, 356));
}

#[test]
fn dimensions_tie_breaks_to_smallest_pair() {
    let rows = vec![
        FrameRecord { frame_index: 0, width: 2560, height: 1440 },
        FrameRecord { frame_index: 1, width: 1920, height: 1080 },
    ];
    assert_eq!(analyze_frame_dimensions(&rows, 100), (1920, 1080));
}

#[test]
fn dimensions_default_when_no_metadata() {
    assert_eq!(analyze_frame_dimensions(&Vec::new(), 100), (860, 360));
}

#[test]
fn frame_rate_derives_from_interval() {
    let m = MovieMaker::new(test_config());
    // one frame every 20 s over a nine-hour day, compressed to one minute
    assert_eq!(m.frame_rate, 27);
}

#[test]
fn muxer_listing_is_searched_by_token() {
    let listing = " D  avi    AVI (Audio Video Interleaved)\n E  mp4    MP4 (MPEG-4 Part 14)\n";
    assert!(has_muxer(listing, "mp4"));
    assert!(has_muxer(listing, "avi"));
    assert!(!has_muxer(listing, "mkv"));
    assert!(!has_muxer("formp4x", "mp4"));
}

#[test]
fn movie_plan_names_output_after_directory_date() {
    let m = MovieMaker::new(test_config());
    let entries = vec![entry("00000.jpeg"), entry("00001.jpeg")];
    let rows = vec![
        FrameRecord { frame_index: 0, width: 1920, height: 1080 },
        FrameRecord { frame_index: 1, width: 1920, height: 1080 },
    ];
    let plan = m
        .make_movie_from("/data/shots/2026/01/02", &entries, &rows)
        .expect("a dated directory with frames");
    assert_eq!(plan.date, Date { year: 2026, month: 1, day: 2 });
    assert_eq!(plan.output_file.as_str(), "/data/videos/ompd-2026-01-02.mp4");
    assert_eq!((plan.target_width, plan.target_height), (1920, 1080));
    assert!(plan.repair.ops.is_empty());
    assert_eq!(plan.repair.frame_count, 2);
    // one row per repaired frame: fit to encode
    assert!(plan.metadata_complete);
    let args: Vec<&str> = plan.args.iter().map(|s| s.as_str()).collect();
    assert_eq!(args[0], "-r");
    assert_eq!(args[1], "27");
    assert_eq!(args[2], "-i");
    assert_eq!(args[3], "/data/shots/2026/01/02/%05d.jpeg");
    assert_eq!(args[9], "/data/videos/ompd-2026-01-02.mp4");
}

#[test]
fn movie_plan_fails_on_undated_directory() {
    let m = MovieMaker::new(test_config());
    let entries = vec![entry("00000.jpeg")];
    assert!(matches!(
        m.make_movie_from("/tmp/scratch", &entries, &Vec::new()),
        Err(MovieError::BadDirectoryPath)
    ));
}

#[test]
fn config_validation_reports_first_violation() {
    assert!(test_config().validate().is_ok());
    let mut c = test_config();
    c.max_sleep_secs = 0;
    assert!(matches!(c.validate(), Err(ConfigError::NonPositiveMaxSleep)));
    let mut c = test_config();
    c.interval = 0;
    assert!(matches!(c.validate(), Err(ConfigError::NonPositiveInterval)));
    let mut c = test_config();
    c.shot_type = "exe".to_string();
    assert!(matches!(c.validate(), Err(ConfigError::InvalidShotType)));
    let mut c = test_config();
    c.video_type = String::new();
    assert!(matches!(c.validate(), Err(ConfigError::EmptyVideoType)));
    let mut c = test_config();
    c.vid_scale_percent = 0;
    assert!(matches!(c.validate(), Err(ConfigError::NonPositiveScale)));
}

#[test]
fn graphics_state_is_read_from_the_report() {
    let report = "Power: AC\nCurrent capabilities: CPU Disk Network Graphics Audio\n";
    assert!(ompd::capturer::have_graphics(report));
    let report = "Power: AC\nCurrent capabilities: CPU Disk Network\n";
    assert!(!ompd::capturer::have_graphics(report));
}
