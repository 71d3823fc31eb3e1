use avxs::config::{
    AvxsConfig, Config, Encoder, ParamValue, SceneDetectionConfig, SceneDetectionSpeedConfig,
    TargetQualityConfig,
};
use avxs::encode::{crf_text, EncodeOptions};
use avxs::ext::{wait_step, with_exe_suffix, WaitStep};
use avxs::ffms2::{Crop, PixelFormat, PixelSubsampling};
use avxs::fingerprint::{profile_fingerprint, ShownNumbers};
use avxs::ieee::Real;
use avxs::job::{
    archive_name, auto_keyint, build_scene_vf, cache_action, check_output_frames,
    compute_output_params, encoder_summary, env_number, ignored_video_opts, leaves_marker,
    parse_fps, percent_done, poll_interval, round_down_even, source_byte_index,
    threads_per_worker, CacheAction, FailureKind, Look, StableWait, WaitVerdict,
};
use avxs::number::{dec_i64, dec_padded, dec_u64, hex_u64, parse_i64, parse_u32, parse_u64};
use avxs::order::{sort_strings, str_le};
use avxs::plan::{prepare_encode, queue_chunks};
use avxs::resume::{state_text, CrfCache, DoneState, SceneEntry};
use avxs::scene::{build_scene_entries, scenes_countable};
use avxs::strmap::StrMap;
use avxs::y4m::VideoInfo;
use std::hash::{Hash, Hasher};

fn opts() -> EncodeOptions {
    EncodeOptions { fps_num: 24, fps_den: 1, ..Default::default() }
}

fn shown(tq: &TargetQualityConfig) -> ShownNumbers {
    let show = |v: Real| format!("{:?}", f64::from_bits(v.bits));
    ShownNumbers {
        jod: show(tq.jod),
        tolerance: show(tq.tolerance),
        max_encoded_percent: show(tq.max_encoded_percent),
    }
}

/// The fingerprint with the numbers shown as they are.
fn fingerprint(
    args: &[String],
    opts: &EncodeOptions,
    sc: &SceneDetectionConfig,
    tq: Option<&TargetQualityConfig>,
) -> String {
    profile_fingerprint(args, opts, sc, tq, &shown(&tq.copied().unwrap_or_default()))
}

#[test]
fn fingerprint_changes_with_profile() {
    let args = vec!["--crf".to_string(), "28".to_string()];
    let sc = SceneDetectionConfig::default();
    let base = fingerprint(&args, &opts(), &sc, None);

    // identical inputs -> identical fingerprint
    assert_eq!(base, fingerprint(&args, &opts(), &sc, None));

    // encoder-arg change -> different
    let args2 = vec!["--crf".to_string(), "30".to_string()];
    assert_ne!(base, fingerprint(&args2, &opts(), &sc, None));

    // scale change -> different
    let mut o = opts();
    o.scale = Some((1920, 1080));
    assert_ne!(base, fingerprint(&args, &o, &sc, None));

    // target_quality change -> different
    let tq = TargetQualityConfig { jod: Real { bits: 9.6f64.to_bits() }, ..Default::default() };
    assert_ne!(base, fingerprint(&args, &opts(), &sc, Some(&tq)));
}

#[test]
fn fingerprint_covers_the_rest_of_the_profile() {
    let args = vec!["--crf".to_string(), "28".to_string()];
    let sc = SceneDetectionConfig::default();
    let base = fingerprint(&args, &opts(), &sc, None);
    assert_eq!(base.len(), 16);
    let o = EncodeOptions { crop: Some(Crop { w: 2, h: 2, x: 0, y: 0 }), ..opts() };
    assert_ne!(base, fingerprint(&args, &o, &sc, None));
    let o = EncodeOptions { target_bit_depth: Some(10), ..opts() };
    assert_ne!(base, fingerprint(&args, &o, &sc, None));
    let s = SceneDetectionConfig { min_scene_len: 25, ..sc };
    assert_ne!(base, fingerprint(&args, &opts(), &s, None));
}

/// The hash of a text in sixteen digits.
fn hashed(text: &str) -> String {
    let mut h = std::collections::hash_map::DefaultHasher::new();
    text.hash(&mut h);
    format!("{:016x}", h.finish())
}

#[test]
fn fingerprint_is_the_hash_of_the_profile() {
    let args = vec!["--crf".to_string(), "28".to_string()];
    let sc = SceneDetectionConfig::default();
    let text = format!("--crf 28|None|None|None|{sc:?}|None");
    assert_eq!(fingerprint(&args, &opts(), &sc, None), hashed(&text));

    let sc = SceneDetectionConfig {
        speed: SceneDetectionSpeedConfig::Fast,
        downscale_height: Some(720),
        ..sc
    };
    let o = EncodeOptions {
        scale: Some((1920, 1080)),
        crop: Some(Crop { w: 1920, h: 800, x: 0, y: 140 }),
        target_bit_depth: Some(10),
        ..opts()
    };
    let tq = TargetQualityConfig { jod: Real { bits: 9.6f64.to_bits() }, ..Default::default() };
    let text = format!(
        "--crf 28|{:?}|{:?}|{:?}|{:?}|Some(TargetQualityConfig {{ jod: 9.6, min_crf: 1, \
         max_crf: 70, min_probes: 2, max_probes: 7, tolerance: 0.5, probe_preset: {}, \
         max_encoded_percent: 90.0 }})",
        o.scale, o.crop, o.target_bit_depth, sc, tq.probe_preset
    );
    assert_eq!(fingerprint(&args, &o, &sc, Some(&tq)), hashed(&text));
    assert!(text.contains("|Some((1920, 1080))|Some(Crop { w: 1920, h: 800, x: 0, y: 140 })|"));
}

#[test]
fn options_without_effect_on_copied_video() {
    let a = AvxsConfig { hdr: true, crop: false, keyint: true, scale: Some(720), ..Default::default() };
    assert_eq!(ignored_video_opts(&a), vec!["hdr", "keyint", "scale"]);
    let a = AvxsConfig {
        hdr: false,
        crop: true,
        keyint: false,
        bit_depth: Some(10),
        ..Default::default()
    };
    assert_eq!(ignored_video_opts(&a), vec!["crop", "bit_depth"]);
}

#[test]
fn output_size_follows_crop_and_scale() {
    assert_eq!(round_down_even(7), 6);
    assert_eq!(round_down_even(8), 8);
    let r = compute_output_params(3840, 2160, None, Some(1080));
    assert_eq!(r.0, Some((1920, 1080)));
    assert_eq!(r.2.as_deref(), Some("scale=1920:1080"));
    let r = compute_output_params(1920, 1080, Some("crop=1920:800:0:140"), Some(720));
    assert_eq!(r.0, Some((1728, 720)));
    assert_eq!(r.1, Some(Crop { w: 1920, h: 800, x: 0, y: 140 }));
    assert_eq!(r.2.as_deref(), Some("crop=1920:800:0:140,scale=1728:720"));
    let r = compute_output_params(1280, 720, None, Some(1080));
    assert_eq!(r, (None, None, None));
    let r = compute_output_params(853, 480, None, Some(361));
    assert_eq!(r.0, Some((640, 360)));
    assert_eq!(build_scene_vf(Some("crop=2:2:0:0"), None).as_deref(), Some("crop=2:2:0:0"));
}

#[test]
fn keyframes_every_five_seconds() {
    assert_eq!(auto_keyint(24000, 1001), 120);
    assert_eq!(auto_keyint(25, 1), 125);
    assert_eq!(auto_keyint(60000, 1001), 300);
    assert_eq!(auto_keyint(0, 1), 1);
    assert_eq!(auto_keyint(u32::MAX, 1), u32::MAX);
}

#[test]
fn threads_of_an_encode() {
    assert_eq!(threads_per_worker(None), 6);
    assert_eq!(threads_per_worker(Some(&ParamValue::Int(4))), 4);
    assert_eq!(threads_per_worker(Some(&ParamValue::Int(0))), 6);
    assert_eq!(threads_per_worker(Some(&ParamValue::Int(-2))), 6);
    assert_eq!(threads_per_worker(Some(&ParamValue::Str("8".to_string()))), 8);
    assert_eq!(threads_per_worker(Some(&ParamValue::Str("x".to_string()))), 6);
}

#[test]
fn frame_rates() {
    assert_eq!(parse_fps("24000/1001"), Ok((24000, 1001)));
    assert_eq!(parse_fps(" 25 "), Ok((25, 1)));
    assert_eq!(parse_fps(" 30 / 1 "), Ok((30, 1)));
    assert_eq!(parse_fps("x/1").unwrap_err().message(), "parse fps numerator");
    assert_eq!(parse_fps("1/x").unwrap_err().message(), "parse fps denominator");
    assert_eq!(parse_fps("x").unwrap_err().message(), "parse fps");
    assert_eq!(parse_fps("0/1").unwrap_err().message(), "invalid fps: 0/1");
    assert_eq!(parse_fps("0/0").unwrap_err().message(), "invalid fps: 0/0");
    assert_eq!(parse_fps("0").unwrap_err().message(), "invalid fps: 0");
}

#[test]
fn byte_index_adds_up() {
    let sizes = [Some("100".to_string()), None, Some("x".to_string()), Some("50".to_string())];
    assert_eq!(source_byte_index(&sizes), vec![0, 100, 100, 100, 150]);
    let sizes = [Some(u64::MAX.to_string()), Some("1".to_string())];
    assert_eq!(source_byte_index(&sizes), vec![0, u64::MAX, u64::MAX]);
}

#[test]
fn progress_and_summary() {
    assert_eq!(percent_done(0, 3), 0);
    assert_eq!(percent_done(2, 3), 66);
    assert_eq!(percent_done(u64::MAX, u64::MAX), 100);
    let args: Vec<String> = ["--crf", "28", "--preset", "6"].map(String::from).to_vec();
    assert_eq!(encoder_summary(&args), "crf=28 preset=6");
    assert_eq!(encoder_summary(&[]), "");
}

#[test]
fn cached_work_belongs_to_a_profile() {
    assert_eq!(cache_action(None, "ab"), CacheAction::Record);
    assert_eq!(cache_action(Some(""), "ab"), CacheAction::Record);
    assert_eq!(cache_action(Some("ab"), "ab"), CacheAction::Keep);
    assert_eq!(cache_action(Some("cd"), "ab"), CacheAction::DiscardAndRecord);
}

fn look(size: u64, stamp: u64, now_ms: u64) -> Look {
    Look { size, stamp, now_ms }
}

#[test]
fn sources_have_to_hold_still() {
    assert!(StableWait::start(look(0, 1, 0)).is_none());
    let mut w = StableWait::start(look(10, 1, 0)).unwrap();
    assert_eq!(w.observe(look(10, 1, 2_999)), WaitVerdict::Wait);
    assert_eq!(w.observe(look(11, 1, 3_000)), WaitVerdict::Wait);
    assert_eq!(w.observe(look(11, 2, 5_000)), WaitVerdict::Wait);
    assert_eq!(w.observe(look(11, 2, 7_999)), WaitVerdict::Wait);
    assert_eq!(w.observe(look(11, 2, 8_000)), WaitVerdict::Ready);
}

#[test]
fn waiting_ends_after_five_minutes() {
    let mut w = StableWait::start(look(10, 1, 1_000)).unwrap();
    assert_eq!(w.observe(look(12, 1, 300_999)), WaitVerdict::Wait);
    assert_eq!(w.observe(look(14, 1, 301_000)), WaitVerdict::GiveUp);
}

#[test]
fn only_permanent_failures_are_marked() {
    assert!(leaves_marker(FailureKind::Permanent));
    for kind in [
        FailureKind::Profile,
        FailureKind::SourceNotReady,
        FailureKind::Timeout,
        FailureKind::VolumeFull,
        FailureKind::GpuNotReady,
    ] {
        assert!(!leaves_marker(kind));
    }
}

#[test]
fn outputs_hold_every_frame() {
    assert!(check_output_frames(100, 100).is_ok());
    let e = check_output_frames(99, 100).unwrap_err();
    assert_eq!(e.message(), "output holds 99 of 100 frames");
}

#[test]
fn archived_files_are_not_overwritten() {
    let have: Vec<String> = ["film.mkv", "film.mkv.2"].map(String::from).to_vec();
    assert_eq!(archive_name(&[], "film.mkv"), "film.mkv");
    assert_eq!(archive_name(&have, "film.mkv"), "film.mkv.3");
    assert_eq!(archive_name(&have[..1], "film.mkv"), "film.mkv.2");
    assert_eq!(archive_name(&have[1..], "film.mkv"), "film.mkv");
}

#[test]
fn numbers_from_the_environment() {
    assert_eq!(env_number(Some("7"), 3), 7);
    assert_eq!(env_number(Some("seven"), 3), 3);
    assert_eq!(env_number(None, 3), 3);
    assert_eq!(poll_interval(None), 60);
    assert_eq!(poll_interval(Some("0")), 1);
    assert_eq!(poll_interval(Some("15")), 15);
}

#[test]
fn chunk_keys_have_five_digits() {
    let s = SceneEntry { index: 0, start_frame: 10, end_frame: 19 };
    assert_eq!(s.padded_index(), "00001");
    assert_eq!(s.frame_count(), 10);
    assert_eq!(SceneEntry { index: 99_999, ..s }.padded_index(), "100000");
}

#[test]
fn done_chunks_need_a_whole_file() {
    let mut d = DoneState::default();
    assert!(!d.is_done("00001", Some(7)));
    d.mark_done("00001", 24, 7);
    assert!(d.is_done("00001", Some(7)));
    assert!(!d.is_done("00001", Some(6)));
    assert!(!d.is_done("00001", None));
    assert!(!d.is_done("00002", Some(7)));
    d.mark_done("00002", 24, 0);
    assert!(!d.is_done("00002", Some(0)));
}

#[test]
fn solved_crfs_survive_a_restart() {
    let mut c = CrfCache::load(&[]);
    c.insert("00002", 113);
    c.insert("00001", 140);
    assert_eq!(c.get("00002").as_deref(), Some("28.25"));
    assert_eq!(c.get("00003"), None);
    c.insert("00001", 139);
    assert_eq!(c.get("00001").as_deref(), Some("34.75"));
    assert_eq!(c.get("00002").as_deref(), Some("28.25"));
    let entries = c.to_entries();
    assert_eq!(
        entries,
        vec![
            ("00001".to_string(), "34.75".to_string()),
            ("00002".to_string(), "28.25".to_string()),
        ]
    );
    let again = CrfCache::load(&entries);
    assert_eq!(again.get("00001").as_deref(), Some("34.75"));
    assert_eq!(again.get("00002").as_deref(), Some("28.25"));
}

#[test]
fn crfs_that_differ_are_written_differently() {
    for q in 0..300u32 {
        assert_ne!(crf_text(q), crf_text(q + 1));
        assert_eq!(crf_text(q).parse::<f64>().unwrap(), f64::from(q) / 4.0);
    }
}

#[test]
fn solved_crfs_are_written_as_json() {
    let raw = "{ \"2\": 28.25, \"1\": 35, \"3\": 28.3, \"4\": 30.0, \"5\": 5e6, \"6\": -1 }";
    let c = CrfCache::from_json(raw).unwrap();
    let get = |key: &str| c.get(key).unwrap();
    assert_eq!((get("1"), get("2")), ("35".to_string(), "28.25".to_string()));
    assert_eq!((get("3"), get("4")), ("28.3".to_string(), "30".to_string()));
    assert_eq!((get("5"), get("6")), ("5000000".to_string(), "-1".to_string()));
    let again = CrfCache::from_json(&c.to_json().unwrap()).unwrap();
    assert_eq!(again.to_entries(), c.to_entries());
    for bad in ["", "[]", "{\"a\": \"28\"}", "{\"a\": 1e999}", "{\"a\": null}"] {
        let e = CrfCache::from_json(bad).unwrap_err();
        assert_eq!(e.message(), "parse tq.json");
    }
    let no_number = CrfCache::load(&[("a".to_string(), "x".to_string())]);
    assert!(no_number.to_json().is_err());

    let mut c = CrfCache::load(&[]);
    for q in [0u32, 1, 2, 3, 4, 113, 280, 4_000_004, u32::MAX - 1, u32::MAX] {
        c.insert(&format!("key {q} \"\\\n\u{e9}"), q);
    }
    let text = c.to_json().unwrap();
    let again = CrfCache::from_json(&text).unwrap();
    assert_eq!(again.to_entries(), c.to_entries());
    assert_eq!(again.get("key 4000004 \"\\\n\u{e9}").as_deref(), Some("1000001"));
    assert_eq!(again.get("key 4294967295 \"\\\n\u{e9}").as_deref(), Some("1073741823.75"));
    let mut one = CrfCache::load(&[]);
    one.insert("00001", 113);
    assert_eq!(one.to_json().unwrap(), "{\n  \"00001\": 28.25\n}");
}

#[test]
fn empty_state_counts_as_absent() {
    assert_eq!(state_text(Some(String::new())), None);
    assert_eq!(state_text(Some("x".to_string())), Some("x".to_string()));
    assert_eq!(state_text(None), None);
}

#[test]
fn scenes_are_countable() {
    let scene = |index, start_frame, end_frame| SceneEntry { index, start_frame, end_frame };
    assert!(scenes_countable(&[]));
    assert!(scenes_countable(&[scene(0, 0, 9), scene(1, 10, 10)]));
    assert!(!scenes_countable(&[scene(0, 1, 0)]));
    assert!(!scenes_countable(&[scene(usize::MAX, 0, 9)]));
    assert!(scenes_countable(&[scene(0, 1, u64::MAX)]));
    assert!(!scenes_countable(&[scene(0, 0, u64::MAX)]));
    assert!(!scenes_countable(&[scene(0, 1, u64::MAX), scene(1, 0, 0)]));
}

#[test]
fn tools_are_waited_for_until_the_deadline() {
    assert_eq!(wait_step(true, 0, 10), WaitStep::Collect);
    assert_eq!(wait_step(true, 10, 10), WaitStep::Collect);
    assert_eq!(wait_step(false, 10, 10), WaitStep::Kill);
    assert_eq!(wait_step(false, 9, 10), WaitStep::Sleep(200));
}

#[test]
fn only_unfinished_chunks_are_encoded() {
    let scenes = build_scene_entries(&[0, 10, 30], 60);
    let mut done = DoneState::default();
    done.mark_done("00001", 10, 5);
    done.mark_done("00002", 20, 5);
    let q = queue_chunks(&scenes, &done, &[Some(5), Some(4), None]);
    assert_eq!(q.pending, vec![scenes[1], scenes[2]]);
    assert_eq!((q.done_chunks, q.done_frames), (1, 10));
}

fn info(w: u32, h: u32) -> VideoInfo {
    VideoInfo {
        width: w,
        height: h,
        fps_num: 24,
        fps_den: 1,
        sar_num: 1,
        sar_den: 1,
        num_frames: 240,
        pixel_format: PixelFormat {
            pix_fmt: 0,
            bit_depth: 10,
            subsampling: PixelSubsampling::Yuv420,
        },
    }
}

#[test]
fn plan_of_an_encode() {
    let mut config = Config {
        encoder: Some(Encoder::SvtAv1),
        avxs: AvxsConfig { hdr: true, keyint: true, scale: Some(1080), ..Default::default() },
        ..Default::default()
    };
    config.encoder_params.insert("crf".to_string(), ParamValue::Int(28));
    config.encoder_params.insert("lp".to_string(), ParamValue::Int(4));
    let hdr = vec!["--transfer-characteristics".to_string(), "18".to_string()];
    let p = prepare_encode(
        &config,
        &info(3840, 2160),
        (24, 1),
        hdr,
        Some("crop=3840:1600:0:280"),
        16,
        64 << 30,
        &shown(&TargetQualityConfig::default()),
    );
    assert_eq!(p.opts.keyint, Some(120));
    assert_eq!(p.opts.scale, Some((2592, 1080)));
    assert_eq!(p.opts.crop, Some(Crop { w: 3840, h: 1600, x: 0, y: 280 }));
    assert_eq!(p.scene_vf.as_deref(), Some("crop=3840:1600:0:280,scale=2592:1080"));
    assert_eq!(p.display_model, "standard_hdr_hlg");
    assert_eq!(p.threads_per_worker, 4);
    assert_eq!(p.workers, 4);
    assert!(p.args.contains(&"--transfer-characteristics".to_string()));
    assert_eq!(
        p.fingerprint,
        fingerprint(&p.args, &p.opts, &config.scene_detection, None)
    );
}

#[test]
fn program_names() {
    assert_eq!(with_exe_suffix("ffmpeg", ""), "ffmpeg");
    assert_eq!(with_exe_suffix("ffmpeg", ".exe"), "ffmpeg.exe");
}

#[test]
fn numbers_as_text() {
    assert_eq!(dec_u64(0), "0");
    assert_eq!(dec_u64(u64::MAX), u64::MAX.to_string());
    assert_eq!(dec_i64(i64::MIN), i64::MIN.to_string());
    assert_eq!(dec_padded(42, 5), "00042");
    assert_eq!(hex_u64(0xab, 4), "00ab");
    assert_eq!(parse_u32("+7"), Some(7));
    assert_eq!(parse_u32("4294967296"), None);
    assert_eq!(parse_u32(""), None);
    assert_eq!(parse_u32("-1"), None);
    assert_eq!(parse_u64("18446744073709551615"), Some(u64::MAX));
    assert_eq!(parse_u64("18446744073709551616"), None);
    assert_eq!(parse_i64("-9223372036854775808"), Some(i64::MIN));
    assert_eq!(parse_i64("9223372036854775808"), None);
    assert_eq!(parse_i64("-"), None);
}

#[test]
fn sorted_names() {
    let v: Vec<String> = ["b", "", "a", "ab", "Z", "a", "\u{e9}"].map(String::from).to_vec();
    let mut expected = v.clone();
    expected.sort();
    assert_eq!(sort_strings(v), expected);
    assert!(str_le("a", "ab") && !str_le("b", "ab") && str_le("", ""));
}

#[test]
fn maps_keep_their_keys_in_order() {
    let mut m: StrMap<u32> = StrMap::new();
    assert!(m.is_empty());
    m.insert("b".to_string(), 1);
    m.insert("a".to_string(), 2);
    m.insert("b".to_string(), 3);
    assert_eq!(m.len(), 2);
    assert_eq!((m.key_at(0).as_str(), *m.value_at(0)), ("a", 2));
    assert_eq!((m.key_at(1).as_str(), *m.value_at(1)), ("b", 3));
    assert_eq!(m.get("c"), None);
    assert!(m.contains_key("a"));
}
