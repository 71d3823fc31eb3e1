use avxs::config::{
    iso639_alias, language_matches, language_selected, layout_name, output_is_lossless,
    toml_value_to_arg, AudioConfig, AudioMode, AudioProfile, AvxsConfig, Bitrate, Config, Encoder,
    ParamValue, SceneDetectionConfig, SceneDetectionSpeedConfig, SubtitleConfig, SubtitleMode,
    TargetQualityConfig, VideoMode,
};
use avxs::ieee::Real;
use avxs::strmap::StrMap;
use avxs::validate::{validate_audio, validate_bitrate_keys, ConfigError};

fn num(v: f64) -> Real {
    Real { bits: v.to_bits() }
}

fn cfg_with_bit_depth(d: Option<u8>) -> Config {
    Config {
        encoder: Some(Encoder::SvtAv1),
        avxs: AvxsConfig { bit_depth: d, ..Default::default() },
        ..Default::default()
    }
}

fn cfg_with_quality(tq: TargetQualityConfig) -> Config {
    Config {
        encoder: Some(Encoder::SvtAv1),
        target_quality: Some(tq),
        ..Default::default()
    }
}

fn cfg_with_scenes(scene_detection: SceneDetectionConfig) -> Config {
    Config { encoder: Some(Encoder::SvtAv1), scene_detection, ..Default::default() }
}

fn quality(jod: f64) -> TargetQualityConfig {
    TargetQualityConfig { jod: num(jod), ..Default::default() }
}

fn table(entries: &[(&str, &str)]) -> StrMap<String> {
    let mut map = StrMap::new();
    for (k, v) in entries {
        map.insert(k.to_string(), v.to_string());
    }
    map
}

fn message(e: &ConfigError) -> String {
    let shown = match e.number() {
        Some(v) => f64::from_bits(v.bits).to_string(),
        None => String::new(),
    };
    e.message(&shown)
}

#[test]
fn bit_depth_8_and_10_are_valid() {
    cfg_with_bit_depth(Some(8)).validate().unwrap();
    cfg_with_bit_depth(Some(10)).validate().unwrap();
    cfg_with_bit_depth(None).validate().unwrap();
}

#[test]
fn bit_depth_other_values_rejected() {
    for d in [0u8, 9, 12, 16] {
        let err = cfg_with_bit_depth(Some(d)).validate().unwrap_err();
        assert!(
            message(&err).contains("bit_depth"),
            "expected bit_depth error for {d}, got: {err:?}"
        );
    }
}

#[test]
fn video_mode_defaults_to_encode() {
    let c = Config { encoder: Some(Encoder::SvtAv1), ..Default::default() };
    assert_eq!(c.avxs.video, VideoMode::Encode);
    let c = Config {
        encoder: Some(Encoder::SvtAv1),
        avxs: AvxsConfig { video: VideoMode::Copy, ..Default::default() },
        ..Default::default()
    };
    assert_eq!(c.avxs.video, VideoMode::Copy);
}

#[test]
fn layout_name_maps_channel_counts() {
    assert_eq!(layout_name(1), "mono");
    assert_eq!(layout_name(2), "stereo");
    assert_eq!(layout_name(6), "5.1");
    assert_eq!(layout_name(8), "7.1");
    assert_eq!(layout_name(16), "7.1");
}

#[test]
fn layout_names_of_all_counts() {
    let names: Vec<&str> = (0..9).map(layout_name).collect();
    assert_eq!(
        names,
        vec!["mono", "mono", "stereo", "3.0", "quad", "5.0", "5.1", "6.1", "7.1"]
    );
}

#[test]
fn bitrate_resolve_by_channels_with_default() {
    let b = Bitrate::PerLayout(table(&[
        ("stereo", "192k"),
        ("5.1", "320k"),
        ("default", "256k"),
    ]));
    assert_eq!(b.resolve(Some(2)), Some("192k"));
    assert_eq!(b.resolve(Some(6)), Some("320k"));
    assert_eq!(b.resolve(Some(8)), Some("256k")); // falls back to default
    assert_eq!(b.resolve(None), Some("256k"));

    let single = Bitrate::Single("128k".into());
    assert_eq!(single.resolve(Some(6)), Some("128k"));
}

#[test]
fn bitrate_without_a_matching_layout_is_none() {
    let b = Bitrate::PerLayout(table(&[("stereo", "192k")]));
    assert_eq!(b.resolve(Some(6)), None);
    assert_eq!(b.resolve(None), None);
}

#[test]
fn output_lossless_classification() {
    assert!(output_is_lossless("flac"));
    assert!(output_is_lossless("pcm_s24le"));
    assert!(!output_is_lossless("libopus"));
    assert!(!output_is_lossless("aac"));
}

#[test]
fn flac_encode_needs_no_bitrate_but_opus_does() {
    validate_audio("audio", AudioMode::Encode, Some("flac"), None).unwrap();
    assert!(validate_audio("audio", AudioMode::Encode, Some("libopus"), None).is_err());
    assert!(validate_audio("audio", AudioMode::Encode, None, None).is_err());
}

#[test]
fn audio_errors_name_their_section() {
    let e = validate_audio("audio.lossless", AudioMode::Encode, None, None).unwrap_err();
    assert_eq!(message(&e), "audio.lossless: codec required when mode = encode");
    let e = validate_audio("audio", AudioMode::Encode, Some("libopus"), None).unwrap_err();
    assert_eq!(message(&e), "audio: bitrate required when mode = encode (libopus is lossy)");
    validate_audio("audio", AudioMode::Copy, None, None).unwrap();
}

fn sample_audio() -> AudioConfig {
    let mut rules = StrMap::new();
    rules.insert(
        "opus".to_string(),
        AudioProfile { mode: Some(AudioMode::Copy), ..Default::default() },
    );
    AudioConfig {
        mode: AudioMode::Encode,
        codec: Some("libopus".to_string()),
        bitrate: Some(Bitrate::Single("192k".to_string())),
        lossless: Some(AudioProfile { codec: Some("flac".to_string()), ..Default::default() }),
        codec_rules: rules,
        ..Default::default()
    }
}

#[test]
fn resolve_precedence_and_inheritance() {
    let cfg = sample_audio();
    assert_eq!(cfg.resolve("opus", false).mode, AudioMode::Copy);
    // lossless override keeps inherited mode + bitrate
    let r = cfg.resolve("truehd", true);
    assert_eq!(r.mode, AudioMode::Encode);
    assert_eq!(r.codec, Some("flac"));
    let r = cfg.resolve("eac3", false);
    assert_eq!(r.codec, Some("libopus"));
    assert!(matches!(r.bitrate, Some(Bitrate::Single(s)) if s == "192k"));
}

#[test]
fn rules_come_before_the_lossless_override() {
    let cfg = sample_audio();
    let r = cfg.resolve("opus", true);
    assert_eq!(r.mode, AudioMode::Copy);
    assert_eq!(r.codec, Some("libopus"));
    let r = cfg.resolve("truehd", true);
    assert!(matches!(r.bitrate, Some(Bitrate::Single(s)) if s == "192k"));
}

#[test]
fn options_replace_the_inherited_table() {
    let mut cfg = sample_audio();
    cfg.options.insert("vbr".to_string(), ParamValue::Bool(true));
    let mut own = StrMap::new();
    own.insert("compression_level".to_string(), ParamValue::Int(12));
    cfg.lossless = Some(AudioProfile { options: own, ..Default::default() });
    let r = cfg.resolve("flac", true);
    assert!(r.options.contains_key("compression_level"));
    assert!(!r.options.contains_key("vbr"));
    assert!(cfg.resolve("opus", true).options.contains_key("vbr"));
}

#[test]
fn target_quality_defaults_and_valid() {
    let c = cfg_with_quality(quality(9.5));
    c.validate().unwrap();
    let tq = c.target_quality.unwrap();
    assert_eq!(
        (tq.min_crf, tq.max_crf, tq.min_probes, tq.max_probes, tq.probe_preset),
        (1, 70, 2, 7, 13)
    );
    assert_eq!(
        (f64::from_bits(tq.tolerance.bits), f64::from_bits(tq.max_encoded_percent.bits)),
        (0.5, 90.0)
    );
}

#[test]
fn target_quality_rejects_bad_values() {
    let bad = [
        quality(0.0),
        quality(11.0),
        TargetQualityConfig { min_crf: 40, max_crf: 30, ..quality(9.5) },
        TargetQualityConfig { min_crf: 0, ..quality(9.5) },
        TargetQualityConfig { max_crf: 71, ..quality(9.5) },
        TargetQualityConfig { min_probes: 1, ..quality(9.5) },
        TargetQualityConfig { min_probes: 5, max_probes: 3, ..quality(9.5) },
        TargetQualityConfig { probe_preset: 14, ..quality(9.5) },
        TargetQualityConfig { max_encoded_percent: num(0.0), ..quality(9.5) },
    ];
    for tq in bad {
        let c = cfg_with_quality(tq);
        assert!(c.validate().is_err(), "should reject: {tq:?}");
    }
}

#[test]
fn target_quality_errors_are_told_apart() {
    let cases = [
        (quality(11.0), "target_quality.jod must be in (0, 10) (got 11)"),
        (quality(10.0), "target_quality.jod must be in (0, 10) (got 10)"),
        (
            TargetQualityConfig { min_crf: 0, ..quality(9.5) },
            "target_quality.min_crf must be >= 1 (got 0)",
        ),
        (
            TargetQualityConfig { min_crf: 40, max_crf: 30, ..quality(9.5) },
            "target_quality.min_crf must be < max_crf (40 >= 30)",
        ),
        (
            TargetQualityConfig { max_crf: 71, ..quality(9.5) },
            "target_quality.max_crf must be <= 70 (got 71)",
        ),
        (
            TargetQualityConfig { min_probes: 1, ..quality(9.5) },
            "target_quality.min_probes must be >= 2 (got 1)",
        ),
        (
            TargetQualityConfig { min_probes: 5, max_probes: 3, ..quality(9.5) },
            "target_quality.max_probes must be >= min_probes (3 < 5)",
        ),
        (
            TargetQualityConfig { probe_preset: 14, ..quality(9.5) },
            "target_quality.probe_preset must be 0..=13 (got 14)",
        ),
        (
            TargetQualityConfig { tolerance: num(-0.5), ..quality(9.5) },
            "target_quality.tolerance must be a finite value >= 0 (got -0.5)",
        ),
    ];
    for (tq, expected) in cases {
        let err = cfg_with_quality(tq).validate().unwrap_err();
        assert_eq!(message(&err), expected);
    }
    cfg_with_quality(TargetQualityConfig { tolerance: num(-0.0), ..quality(9.5) })
        .validate()
        .unwrap();
}

#[test]
fn target_quality_requires_encode_video() {
    let mut c = cfg_with_quality(quality(9.5));
    c.avxs.video = VideoMode::Copy;
    let err = c.validate().unwrap_err();
    assert_eq!(message(&err), "target_quality requires avxs.video = \"encode\"");
}

#[test]
fn encoder_is_required_unless_video_is_copied() {
    let c = Config::default();
    assert!(matches!(c.validate(), Err(ConfigError::EncoderMissing)));
    let c = Config {
        avxs: AvxsConfig { video: VideoMode::Copy, ..Default::default() },
        ..Default::default()
    };
    assert!(c.validate().is_ok());
}

#[test]
fn language_whitelist_matches_both_iso_639_2_spellings() {
    // Matroska tends to carry the bibliographic code, configs the terminological one.
    assert!(language_matches("deu", "ger"));
    assert!(language_matches("ger", "deu"));
    assert!(language_matches("fra", "fre"));
    assert!(language_matches("zho", "chi"));
    assert!(language_matches("deu", "deu"));
    assert!(!language_matches("deu", "eng"));
    // Arabic and Armenian share a two-letter prefix; a prefix match would confuse them.
    assert!(!language_matches("ara", "arm"));
}

#[test]
fn aliases_pair_up_for_every_language() {
    let codes = [
        "alb", "arm", "baq", "bur", "chi", "cze", "dut", "fre", "geo", "ger", "gre", "ice", "mac",
        "mao", "may", "per", "rum", "slo", "tib", "wel",
    ];
    for code in codes {
        let other = iso639_alias(code).unwrap();
        assert_ne!(other, code);
        assert_eq!(iso639_alias(other), Some(code));
        assert!(language_matches(other, code) && language_matches(code, other));
    }
    assert_eq!(iso639_alias("eng"), None);
}

#[test]
fn language_codes_of_different_length_do_not_mix() {
    for (two, three) in [("de", "deu"), ("de", "ger"), ("en", "eng"), ("zh", "zho")] {
        assert!(!language_matches(two, three) && !language_matches(three, two));
        let tagged = format!("{three}-Latn_XX");
        assert!(language_matches(&tagged, three) && language_matches(three, &tagged));
    }
}

#[test]
fn language_whitelist_ignores_case_and_region_suffix() {
    assert!(language_matches("POR", "por-BR"));
    assert!(language_matches("pt", "pt-BR"));
    assert!(language_matches("por", "por"));
    assert!(language_matches(" eng ", "eng"));
    assert!(!language_matches("por", "spa"));
    assert!(language_matches("por-BR", "por"));
    assert!(language_matches("por_BR", "por-PT"));
    assert!(language_matches("deu-DE", "ger"));
    // Same code set on both sides, subtag or not.
    assert!(!language_matches("por", "pt-BR"));
    assert!(!language_matches("de-DE", "ger"));
    assert!(!language_matches("", "eng"));
}

#[test]
fn scene_detection_values_are_checked_before_the_encode_starts() {
    let bad = |c: SceneDetectionConfig| message(&cfg_with_scenes(c).validate().unwrap_err());
    assert!(bad(SceneDetectionConfig { min_scene_len: 0, ..Default::default() })
        .contains("min_scene_len"));
    assert!(bad(SceneDetectionConfig { extra_split: 1, ..Default::default() })
        .contains("extra_split"));
    assert!(bad(SceneDetectionConfig { downscale_height: Some(0), ..Default::default() })
        .contains("downscale_height"));

    cfg_with_scenes(SceneDetectionConfig {
        extra_split: 240,
        downscale_height: Some(720),
        ..Default::default()
    })
    .validate()
    .unwrap();
}

#[test]
fn scene_detection_messages() {
    let e = SceneDetectionConfig { extra_split: 23, ..Default::default() }.validate().unwrap_err();
    assert_eq!(
        message(&e),
        "scene_detection.extra_split must be >= 24 frames (got 23); use 0 to disable"
    );
    let e = SceneDetectionConfig { downscale_height: Some(63), ..Default::default() }
        .validate()
        .unwrap_err();
    assert_eq!(
        message(&e),
        "scene_detection.downscale_height must be at least 64 (got 63); remove it to disable the extra downscale"
    );
    let e = SceneDetectionConfig { min_scene_len: 0, ..Default::default() }.validate().unwrap_err();
    assert_eq!(message(&e), "scene_detection.min_scene_len must be >= 1");
    SceneDetectionConfig { extra_split: 24, downscale_height: Some(64), ..Default::default() }
        .validate()
        .unwrap();
}

#[test]
fn non_finite_target_quality_values_are_rejected() {
    let bad = |tq: TargetQualityConfig| message(&cfg_with_quality(tq).validate().unwrap_err());
    assert!(bad(TargetQualityConfig { max_encoded_percent: num(f64::NAN), ..quality(9.5) })
        .contains("max_encoded_percent"));
    assert!(bad(TargetQualityConfig { max_encoded_percent: num(f64::INFINITY), ..quality(9.5) })
        .contains("max_encoded_percent"));
    assert!(bad(TargetQualityConfig { tolerance: num(f64::NAN), ..quality(9.5) })
        .contains("tolerance"));
}

#[test]
fn unknown_bitrate_layout_keys_are_rejected() {
    let with = |entries: &[(&str, &str)]| Config {
        encoder: Some(Encoder::SvtAv1),
        audio: AudioConfig {
            mode: AudioMode::Encode,
            codec: Some("libopus".to_string()),
            bitrate: Some(Bitrate::PerLayout(table(entries))),
            ..Default::default()
        },
        ..Default::default()
    };
    let err = message(&with(&[("stereo", "192k"), ("5,1", "320k")]).validate().unwrap_err());
    assert!(err.contains("5,1"), "got: {err}");

    with(&[("stereo", "192k"), ("5.1", "320k"), ("default", "128k")]).validate().unwrap();
}

#[test]
fn unknown_layout_message() {
    let b = Bitrate::PerLayout(table(&[("5,1", "320k")]));
    let e = validate_bitrate_keys("audio", Some(&b)).unwrap_err();
    assert_eq!(
        message(&e),
        "audio: unknown bitrate layout \"5,1\"; expected one of mono, stereo, 3.0, quad, 5.0, 5.1, 6.1, 7.1, default"
    );
    validate_bitrate_keys("audio", None).unwrap();
}

#[test]
fn rules_are_checked_with_what_they_inherit() {
    let mut c = Config { encoder: Some(Encoder::SvtAv1), ..Default::default() };
    c.audio.codec_rules.insert(
        "eac3".to_string(),
        AudioProfile { mode: Some(AudioMode::Encode), ..Default::default() },
    );
    let e = c.validate().unwrap_err();
    assert_eq!(message(&e), "audio.codec_rules.eac3: codec required when mode = encode");
    c.audio.codec = Some("flac".to_string());
    c.validate().unwrap();
    c.audio.lossless = Some(AudioProfile {
        mode: Some(AudioMode::Encode),
        codec: Some("aac".to_string()),
        ..Default::default()
    });
    let e = c.validate().unwrap_err();
    assert_eq!(
        message(&e),
        "audio.lossless: bitrate required when mode = encode (aac is lossy)"
    );
}

#[test]
fn und_counts_as_untagged_not_as_a_language() {
    let wl = vec!["eng".to_string()];
    assert!(language_selected(&wl, None));
    assert!(language_selected(&wl, Some("und")));
    assert!(language_selected(&wl, Some("UND")));
    assert!(language_selected(&wl, Some("")));
    assert!(language_selected(&wl, Some("eng")));
    assert!(!language_selected(&wl, Some("ger")));
    assert!(language_selected(&[], Some("ger")));
}

#[test]
fn scale_below_the_minimum_is_rejected() {
    for bad in [0u32, 1, 63] {
        let c = Config {
            encoder: Some(Encoder::SvtAv1),
            avxs: AvxsConfig { scale: Some(bad), ..Default::default() },
            ..Default::default()
        };
        let err = c.validate().unwrap_err();
        assert_eq!(
            message(&err),
            format!("avxs.scale must be at least 64 (got {bad}); remove it to disable scaling")
        );
    }
    let c = Config {
        encoder: Some(Encoder::SvtAv1),
        avxs: AvxsConfig { scale: Some(720), ..Default::default() },
        ..Default::default()
    };
    assert!(c.validate().is_ok());
}

#[test]
fn missing_jod_is_named_as_missing() {
    let c = cfg_with_quality(TargetQualityConfig { min_crf: 10, ..Default::default() });
    let err = message(&c.validate().unwrap_err());
    assert!(err.contains("jod is required"), "got: {err}");
}

#[test]
fn values_on_the_command_line() {
    assert_eq!(toml_value_to_arg(&ParamValue::Str("a b".to_string())), "a b");
    assert_eq!(toml_value_to_arg(&ParamValue::Int(-3)), "-3");
    assert_eq!(toml_value_to_arg(&ParamValue::Int(i64::MIN)), "-9223372036854775808");
    assert_eq!(toml_value_to_arg(&ParamValue::Bool(true)), "1");
    assert_eq!(toml_value_to_arg(&ParamValue::Bool(false)), "0");
    let v = ParamValue::Float { value: num(1.5), text: "1.5".to_string() };
    assert_eq!(toml_value_to_arg(&v), "1.5");
    assert_eq!(toml_value_to_arg(&ParamValue::Other("[1]".to_string())), "[1]");
}

#[test]
fn encoder_args_are_sorted_by_name() {
    let mut c = Config::default();
    c.encoder_params.insert("preset".to_string(), ParamValue::Int(6));
    c.encoder_params.insert("crf".to_string(), ParamValue::Int(28));
    assert_eq!(c.encoder_args(), vec!["--crf", "28", "--preset", "6"]);
}

#[test]
fn extra_split_in_frames_and_seconds() {
    let c = SceneDetectionConfig::default();
    assert_eq!(c.effective_extra_split_frames(24, 1), Some(240));
    assert_eq!(c.effective_extra_split_frames(24000, 1001), Some(240));
    assert_eq!(c.effective_extra_split_frames(60000, 1001), Some(599));
    let frames = SceneDetectionConfig { extra_split: 48, ..c };
    assert_eq!(frames.effective_extra_split_frames(24, 1), Some(48));
    let none = SceneDetectionConfig { extra_split_sec: 0, ..c };
    assert_eq!(none.effective_extra_split_frames(24, 1), None);
    let tiny = SceneDetectionConfig { extra_split_sec: 1, ..c };
    assert_eq!(tiny.effective_extra_split_frames(1, 3), None);
    assert_eq!(tiny.effective_extra_split_frames(1, 2), Some(1));
}

#[test]
fn defaults_of_the_other_sections() {
    let s = SubtitleConfig::default();
    assert_eq!(s.mode, SubtitleMode::Copy);
    assert!(s.language_whitelist.is_empty());
    assert_eq!(SceneDetectionSpeedConfig::default(), SceneDetectionSpeedConfig::Standard);
    assert_eq!(SceneDetectionConfig::default().min_scene_len, 24);
    assert_eq!(AudioConfig::default().mode, AudioMode::Copy);
}
