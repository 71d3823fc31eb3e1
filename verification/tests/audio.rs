use avxs::audio::{
    codec_display, fallback_lossless_codecs, is_lossless, parse_lossless_codecs, plan,
    track_passes_whitelist, Action, AudioPlan, AudioTrack, CodecSet, FfprobeDisposition,
};
use avxs::config::{AudioConfig, AudioMode, AudioProfile, Bitrate, ParamValue};
use avxs::mux::{mkvmerge_failed, mux_args, track_title};
use avxs::strmap::StrMap;
use avxs::subtitle::SubtitleSelection;

fn sample_set() -> CodecSet {
    let mut set = CodecSet::new();
    for name in ["truehd", "flac", "alac", "dts", "wavpack"] {
        set.insert(name);
    }
    set
}

fn track(i: usize, codec: &str, channels: Option<u32>, language: Option<&str>) -> AudioTrack {
    AudioTrack {
        audio_index: i,
        codec_name: codec.to_string(),
        profile: None,
        channels,
        language: language.map(str::to_string),
        title: None,
    }
}

#[test]
fn lossless_by_codec_name() {
    let set = sample_set();
    assert!(is_lossless("truehd", None, &set));
    assert!(is_lossless("flac", None, &set));
    assert!(is_lossless("pcm_s24le", None, &set)); // pcm always lossless
    assert!(!is_lossless("eac3", None, &set));
    assert!(!is_lossless("aac", None, &set));
}

#[test]
fn dts_lossless_only_for_master_audio() {
    let set = sample_set();
    assert!(is_lossless("dts", Some("DTS-HD MA"), &set));
    assert!(!is_lossless("dts", Some("DTS-HD HRA"), &set));
    assert!(!is_lossless("dts", Some("DTS"), &set));
    assert!(!is_lossless("dts", None, &set));
}

#[test]
fn parse_codecs_picks_audio_lossless() {
    let sample = "\
 DEA..S flac    FLAC (Free Lossless Audio Codec)
 DEA.L. aac     AAC (Advanced Audio Coding)
 DEAI.S truehd  TrueHD
 DEV..S ffv1    FFV1 (video, lossless)
 D.A.LS dts     DCA (DTS Coherent Acoustics)
";
    let set = parse_lossless_codecs(sample);
    assert!(set.contains("flac"));
    assert!(set.contains("truehd"));
    assert!(set.contains("dts"));
    assert!(!set.contains("aac"));
    assert!(!set.contains("ffv1"));
}

#[test]
fn fallback_list_of_lossless_codecs() {
    let set = fallback_lossless_codecs();
    for name in ["truehd", "mlp", "flac", "alac", "ape", "tta", "wavpack", "tak", "als", "dts"] {
        assert!(set.contains(name), "{name}");
    }
    assert!(!set.contains("aac"));
}

#[test]
fn names_of_codecs() {
    assert_eq!(codec_display("libopus"), "Opus");
    assert_eq!(codec_display("eac3"), "E-AC-3");
    assert_eq!(codec_display("libmp3lame"), "MP3");
    assert_eq!(codec_display("wavpack"), "wavpack");
}

#[test]
fn dispositions_become_flags() {
    let none = FfprobeDisposition::default();
    assert_eq!(none.to_mkvmerge_flags(0), vec!["--default-track-flag", "0:no"]);
    let d = FfprobeDisposition { default: 1, forced: 1, comment: 1, ..none };
    assert_eq!(
        d.to_mkvmerge_flags(2),
        vec![
            "--default-track-flag", "2:yes",
            "--forced-display-flag", "2:yes",
            "--commentary-flag", "2:yes",
        ]
    );
}

#[test]
fn whitelist_keeps_aliases_and_untagged_tracks() {
    let wl = vec!["deu".to_string()];
    assert!(track_passes_whitelist(&track(0, "ac3", None, Some("ger")), &wl));
    assert!(track_passes_whitelist(&track(0, "ac3", None, None), &wl));
    assert!(track_passes_whitelist(&track(0, "ac3", None, Some("und")), &wl));
    assert!(!track_passes_whitelist(&track(0, "ac3", None, Some("eng")), &wl));
    assert!(track_passes_whitelist(&track(0, "ac3", None, Some("eng")), &[]));
}

fn sample_config() -> AudioConfig {
    let mut bitrates = StrMap::new();
    bitrates.insert("5.1".to_string(), "320k".to_string());
    bitrates.insert("default".to_string(), "192k".to_string());
    let mut options = StrMap::new();
    options.insert("compression_level".to_string(), ParamValue::Int(12));
    let mut rules = StrMap::new();
    rules.insert(
        "opus".to_string(),
        AudioProfile { mode: Some(AudioMode::Copy), ..Default::default() },
    );
    AudioConfig {
        mode: AudioMode::Encode,
        codec: Some("libopus".to_string()),
        bitrate: Some(Bitrate::PerLayout(bitrates)),
        language_whitelist: vec!["eng".to_string()],
        lossless: Some(AudioProfile {
            codec: Some("flac".to_string()),
            options,
            ..Default::default()
        }),
        codec_rules: rules,
        ..Default::default()
    }
}

fn sample_plan() -> AudioPlan {
    let tracks = [
        track(0, "eac3", Some(6), Some("eng")),
        track(1, "truehd", Some(8), Some("eng")),
        track(2, "ac3", Some(2), Some("spa")),
        track(3, "opus", Some(2), None),
    ];
    plan(&tracks, &sample_config(), &sample_set()).unwrap()
}

#[test]
fn summary_of_a_plan() {
    assert_eq!(
        sample_plan().summary_lines(),
        vec![
            "track 0: eng eac3 5.1 (lossy) -> Opus 320k",
            "track 1: eng truehd 7.1 (lossless) -> FLAC",
            "track 2: und opus stereo (lossy) -> copy",
        ]
    );
    let empty = plan(&[], &sample_config(), &sample_set()).unwrap();
    assert_eq!(empty.summary_lines(), vec!["no audio tracks"]);
}

#[test]
fn plan_without_a_codec_is_refused() {
    let config = AudioConfig { mode: AudioMode::Encode, ..Default::default() };
    let tracks = [track(4, "ac3", None, None)];
    let e = plan(&tracks, &config, &sample_set()).unwrap_err();
    assert_eq!(e.message(), "audio track 4: codec is required when mode = encode");
}

#[test]
fn plan_falls_back_to_the_encoder_default_bitrate() {
    let mut bitrates = StrMap::new();
    bitrates.insert("stereo".to_string(), "192k".to_string());
    let config = AudioConfig {
        mode: AudioMode::Encode,
        codec: Some("libopus".to_string()),
        bitrate: Some(Bitrate::PerLayout(bitrates)),
        ..Default::default()
    };
    let p = plan(&[track(0, "ac3", Some(6), None)], &config, &sample_set()).unwrap();
    assert!(matches!(&p.tracks[0].action, Action::Encode { bitrate: None, .. }));
}

#[test]
fn arguments_for_the_audio_of_the_output() {
    let mut p = sample_plan();
    p.tracks[0].title = Some("English Dolby Digital Plus 7.1".to_string());
    let args = p.audio_args("in.mkv", "audio.mkv");
    assert_eq!(
        args,
        vec![
            "-hide_banner", "-loglevel", "error", "-y", "-i", "in.mkv", "-vn", "-sn",
            "-map", "0:a:0", "-map", "0:a:1", "-map", "0:a:3",
            "-filter:a:0", "aformat=channel_layouts=7.1|6.1|5.1|5.0|quad|3.0|stereo|mono",
            "-c:a:0", "libopus", "-b:a:0", "320k",
            "-metadata:s:a:0", "title=English Dolby Digital Plus 7.1 (Opus)",
            "-c:a:1", "flac", "-compression_level:a:1", "12",
            "-metadata:s:a:1", "title=FLAC",
            "-c:a:2", "copy",
            "audio.mkv",
        ]
    );
}

#[test]
fn titles_carry_one_marker() {
    assert_eq!(track_title(None, "Opus"), "Opus");
    assert_eq!(track_title(Some(""), "Opus"), "Opus");
    assert_eq!(track_title(Some("Stereo"), "Opus"), "Stereo (Opus)");
    assert_eq!(track_title(Some("Stereo (Opus)"), "FLAC"), "Stereo (FLAC)");
    assert_eq!(track_title(Some("Stereo (Opus)"), "Opus"), "Stereo (Opus)");
    assert_eq!(track_title(Some("Opus"), "FLAC"), "FLAC");
    assert_eq!(track_title(Some("Director (2021)"), "Opus"), "Director (2021) (Opus)");
    assert_eq!(track_title(Some("Stereo (wavpack)"), "wavpack"), "Stereo (wavpack)");
}

#[test]
fn arguments_that_put_the_output_together() {
    let d = FfprobeDisposition { default: 1, ..FfprobeDisposition::default() };
    let args = mux_args(
        "out.mkv",
        "video.mkv",
        Some(d),
        Some("audio.mkv"),
        "in.mkv",
        &SubtitleSelection::Indices(vec![0, 2]),
        &[3, 5],
    );
    assert_eq!(
        args,
        vec![
            "-o", "out.mkv", "--default-track-flag", "0:yes",
            "--no-audio", "--no-subtitles", "--no-chapters", "--no-global-tags", "--no-track-tags",
            "video.mkv",
            "--no-video", "--no-subtitles", "--no-chapters", "--no-global-tags", "--no-track-tags",
            "audio.mkv",
            "--no-video", "--no-audio", "--no-global-tags", "--no-track-tags",
            "--subtitle-tracks", "3,5", "in.mkv",
        ]
    );
    let args = mux_args("o", "v", None, None, "s", &SubtitleSelection::Strip, &[]);
    assert_eq!(args.len(), 2 + 5 + 1 + 4 + 1 + 1);
    assert!(args.contains(&"--no-subtitles".to_string()));
}

#[test]
fn mkvmerge_warnings_are_no_failure() {
    assert!(!mkvmerge_failed(Some(0)));
    assert!(!mkvmerge_failed(Some(1)));
    assert!(mkvmerge_failed(Some(2)));
    assert!(mkvmerge_failed(None));
}
