use avxs::config::{
    SceneDetectionConfig, SceneDetectionSpeedConfig, SubtitleConfig, SubtitleMode,
};
use avxs::resume::SceneEntry;
use avxs::scene::{
    apply_extra_split, build_detection_vf, build_scene_entries, chunk_scenes, clamp_scenes,
    count_frames, cuts_in_order, detection_args, detector_options, DetectorOptions, SceneError,
};
use avxs::subtitle::{
    retry, select_tracks, select_without_probe, subtitle_args, track_ids, SubtitleSelection,
};

#[test]
fn build_entries_single_chunk() {
    let entries = build_scene_entries(&[0], 100);
    assert_eq!(entries.len(), 1);
    assert_eq!(entries[0].start_frame, 0);
    assert_eq!(entries[0].end_frame, 99);
}

#[test]
fn build_entries_two_chunks() {
    let entries = build_scene_entries(&[0, 50], 100);
    assert_eq!(entries.len(), 2);
    assert_eq!(entries[0].start_frame, 0);
    assert_eq!(entries[0].end_frame, 49);
    assert_eq!(entries[1].start_frame, 50);
    assert_eq!(entries[1].end_frame, 99);
}

#[test]
fn build_entries_indices_sequential() {
    let entries = build_scene_entries(&[0, 24, 48, 72], 100);
    for (i, e) in entries.iter().enumerate() {
        assert_eq!(e.index, i);
    }
}

#[test]
fn build_entries_without_a_cut_at_the_start() {
    assert_eq!(build_scene_entries(&[24, 48], 100), build_scene_entries(&[0, 24, 48], 100));
    assert_eq!(build_scene_entries(&[], 10).len(), 1);
}

#[test]
fn detection_vf_none_no_downscale() {
    assert_eq!(build_detection_vf(None, None), None);
}

#[test]
fn detection_vf_base_only() {
    assert_eq!(
        build_detection_vf(Some("crop=1920:800:0:140"), None),
        Some("crop=1920:800:0:140".into())
    );
}

#[test]
fn detection_vf_downscale_only() {
    assert_eq!(
        build_detection_vf(None, Some(720)),
        Some("scale=-2:min(ih\\,720)".into())
    );
}

#[test]
fn detection_vf_combined() {
    assert_eq!(
        build_detection_vf(Some("crop=1920:800:0:140"), Some(720)),
        Some("crop=1920:800:0:140,scale=-2:min(ih\\,720)".into())
    );
}

#[test]
fn detection_command_line() {
    assert_eq!(
        detection_args("in.mkv", Some("crop=2:2:0:0")),
        vec![
            "-hide_banner", "-loglevel", "error", "-i", "in.mkv", "-map", "0:v:0",
            "-vf", "crop=2:2:0:0", "-pix_fmt", "yuv420p", "-f", "yuv4mpegpipe", "pipe:1",
        ]
    );
    assert!(!detection_args("in.mkv", None).contains(&"-vf".to_string()));
}

#[test]
fn extra_split_no_split_needed() {
    let scenes = build_scene_entries(&[0, 100], 200);
    let result = apply_extra_split(scenes, 240);
    assert_eq!(result.len(), 2);
    assert_eq!(result[0].end_frame, 99);
    assert_eq!(result[1].start_frame, 100);
}

#[test]
fn extra_split_exact_boundary() {
    let scenes = build_scene_entries(&[0], 240);
    let result = apply_extra_split(scenes, 240);
    assert_eq!(result.len(), 1);
    assert_eq!(result[0].end_frame, 239);
}

#[test]
fn extra_split_one_over() {
    let scenes = build_scene_entries(&[0], 241);
    let result = apply_extra_split(scenes, 240);
    assert_eq!(result.len(), 2);
    assert_eq!(result[0].end_frame - result[0].start_frame + 1, 120);
    assert_eq!(result[1].end_frame, 240);
}

#[test]
fn extra_split_triple() {
    let scenes = build_scene_entries(&[0], 720);
    let result = apply_extra_split(scenes, 240);
    assert_eq!(result.len(), 3);
    assert_eq!(result[2].end_frame, 719);
    for e in &result { assert!(e.end_frame - e.start_frame + 1 <= 240); }
}

#[test]
fn extra_split_reindexes() {
    let scenes = build_scene_entries(&[0, 50], 200);
    let mut long = scenes;
    long[1].end_frame = 800;
    let result = apply_extra_split(long, 100);
    for (i, e) in result.iter().enumerate() {
        assert_eq!(e.index, i);
    }
}

#[test]
fn extra_split_leaves_no_frame_out() {
    for total in [1usize, 23, 24, 25, 47, 48, 49, 500, 1001] {
        for max in [1usize, 7, 24, 240] {
            let parts = apply_extra_split(build_scene_entries(&[0], total), max);
            assert_eq!(parts[0].start_frame, 0);
            assert_eq!(parts[parts.len() - 1].end_frame, total as u64 - 1);
            for w in parts.windows(2) {
                assert_eq!(w[1].start_frame, w[0].end_frame + 1);
            }
            for p in &parts {
                assert!(p.start_frame <= p.end_frame);
                assert!(p.frame_count() <= max as u64);
            }
            assert_eq!(count_frames(&parts), total as u64);
        }
    }
}

#[test]
fn chunks_of_a_detected_video() {
    let chunks = chunk_scenes(&[0, 100], 350, Some(100)).unwrap();
    let bounds: Vec<(u64, u64)> = chunks.iter().map(|c| (c.start_frame, c.end_frame)).collect();
    assert_eq!(bounds, vec![(0, 99), (100, 182), (183, 265), (266, 349)]);
    assert_eq!(chunk_scenes(&[0, 100], 350, None).unwrap().len(), 2);
    let e = chunk_scenes(&[], 0, Some(24)).unwrap_err();
    assert_eq!(e, SceneError::NoFrames);
    assert_eq!(e.message(), "scene detection: no frames processed");
}

#[test]
fn cuts_out_of_order_are_told() {
    assert!(cuts_in_order(&[0, 24, 48], 100));
    assert!(cuts_in_order(&[], 1));
    assert!(!cuts_in_order(&[0, 24, 24], 100));
    assert!(!cuts_in_order(&[0, 100], 100));
}

#[test]
fn scenes_are_clamped_to_the_delivered_frames() {
    let scenes = build_scene_entries(&[0, 50, 100], 150);
    assert_eq!(clamp_scenes(scenes.clone(), 150), scenes);
    let cut = clamp_scenes(scenes.clone(), 120);
    assert_eq!(cut.len(), 3);
    assert_eq!(cut[2].end_frame, 119);
    let cut = clamp_scenes(scenes.clone(), 100);
    assert_eq!(cut.len(), 2);
    assert_eq!(cut[1], SceneEntry { index: 1, start_frame: 50, end_frame: 99 });
    assert!(clamp_scenes(scenes, 0).is_empty());
}

fn subtitles(mode: SubtitleMode, whitelist: &[&str]) -> SubtitleConfig {
    SubtitleConfig { mode, language_whitelist: whitelist.iter().map(|s| s.to_string()).collect() }
}

#[test]
fn subtitle_tracks_by_language() {
    let languages = [
        Some("eng".to_string()),
        Some("ger".to_string()),
        None,
        Some("spa".to_string()),
        Some("und".to_string()),
    ];
    let config = subtitles(SubtitleMode::Copy, &["deu"]);
    assert!(select_without_probe(&config).is_none());
    match select_tracks(&languages, &config) {
        SubtitleSelection::Indices(v) => assert_eq!(v, vec![1, 2, 4]),
        other => panic!("{other:?}"),
    }
    let all = subtitles(SubtitleMode::Copy, &[]);
    assert!(matches!(select_tracks(&languages, &all), SubtitleSelection::All));
    let none = subtitles(SubtitleMode::Strip, &["eng"]);
    assert!(matches!(select_tracks(&languages, &none), SubtitleSelection::Strip));
    assert!(matches!(select_without_probe(&none), Some(SubtitleSelection::Strip)));
}

#[test]
fn subtitle_ids_and_arguments() {
    let tracks = [
        (0, "video".to_string()),
        (1, "audio".to_string()),
        (2, "subtitles".to_string()),
        (4, "subtitles".to_string()),
        (7, "subtitles".to_string()),
    ];
    assert_eq!(track_ids(&tracks, &[0, 2, 9]), vec![2, 7]);
    let some = SubtitleSelection::Indices(vec![0, 2]);
    assert_eq!(subtitle_args(&some, &[2, 7]), vec!["--subtitle-tracks", "2,7"]);
    assert_eq!(subtitle_args(&some, &[]), vec!["--no-subtitles"]);
    assert!(subtitle_args(&SubtitleSelection::All, &[]).is_empty());
    assert_eq!(subtitle_args(&SubtitleSelection::Strip, &[]), vec!["--no-subtitles"]);
}

#[test]
fn languages_are_asked_for_three_times() {
    assert!(retry(0) && retry(1) && retry(2));
    assert!(!retry(3) && !retry(4));
}

#[test]
fn options_of_the_detector() {
    let cfg = SceneDetectionConfig {
        min_scene_len: 30,
        speed: SceneDetectionSpeedConfig::Fast,
        ..Default::default()
    };
    assert_eq!(
        detector_options(&cfg),
        DetectorOptions {
            speed: SceneDetectionSpeedConfig::Fast,
            detect_flashes: true,
            min_scenecut_distance: Some(30),
            max_scenecut_distance: None,
            lookahead_distance: 5,
        }
    );
}
