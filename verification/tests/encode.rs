use avxs::config::{Config, Encoder, ParamValue};
use avxs::encode::{
    build_encoder_args, check_chunk_size, chunk_encoder_args, concat_args, concat_list, crf_text,
    encoder_binary, escape_path, merged_encoder_args, scaler_args, set_arg, EncodeOptions,
    EncodeOverrides,
};

fn config_with(params: &[(&str, i64)]) -> Config {
    let mut config = Config { encoder: Some(Encoder::SvtAv1), ..Default::default() };
    for (k, v) in params {
        config.encoder_params.insert(k.to_string(), ParamValue::Int(*v));
    }
    config
}

fn options(keyint: Option<u32>) -> EncodeOptions {
    EncodeOptions {
        hdr_args: Vec::new(),
        keyint,
        scale: None,
        crop: None,
        fps_num: 24,
        fps_den: 1,
        target_bit_depth: None,
    }
}

#[test]
fn build_encoder_args_includes_params() {
    let config = config_with(&[("crf", 28), ("preset", 6)]);
    let args = build_encoder_args(&config, "/tmp/chunk.ivf", &options(None));

    assert!(args.contains(&"-b".to_string()));
    assert!(args.contains(&"--crf".to_string()));
    assert!(args.contains(&"28".to_string()));
    assert!(args.contains(&"--preset".to_string()));
    assert!(args.contains(&"6".to_string()));
    assert_eq!(args[1], "/tmp/chunk.ivf");
}

#[test]
fn auto_keyint_skipped_when_manual() {
    let config = config_with(&[("keyint", 240)]);
    let args = build_encoder_args(&config, "/tmp/chunk.ivf", &options(Some(120)));

    // Manual keyint=240 should be present, auto 120 should not appear
    let keyint_pos = args.iter().position(|a| a == "--keyint").unwrap();
    assert_eq!(args[keyint_pos + 1], "240");
    assert_eq!(args.iter().filter(|a| *a == "--keyint").count(), 1);
}

#[test]
fn auto_keyint_injected_when_not_manual() {
    let config = config_with(&[]);
    let args = build_encoder_args(&config, "/tmp/chunk.ivf", &options(Some(120)));

    let keyint_pos = args.iter().position(|a| a == "--keyint").unwrap();
    assert_eq!(args[keyint_pos + 1], "120");
}

#[test]
fn auto_hdr_skipped_when_manual_override() {
    // User pinned color-primaries; auto-HDR must not override.
    let config = config_with(&[("color-primaries", 1)]);
    let opts = EncodeOptions {
        hdr_args: vec![
            "--color-primaries".into(),
            "9".into(),
            "--transfer-characteristics".into(),
            "16".into(),
        ],
        ..options(None)
    };

    let args = merged_encoder_args(&config, &opts);
    // User's value 1 wins for color-primaries.
    let pos = args.iter().position(|a| a == "--color-primaries").unwrap();
    assert_eq!(args[pos + 1], "1");
    assert_eq!(args.iter().filter(|a| *a == "--color-primaries").count(), 1);
    // Non-overridden auto-HDR arg still injected.
    assert!(args.windows(2).any(|w| w[0] == "--transfer-characteristics" && w[1] == "16"));
}

#[test]
fn encoder_programs() {
    assert_eq!(encoder_binary(Encoder::SvtAv1), "SvtAv1EncApp");
    assert_eq!(encoder_binary(Encoder::SvtAv1Hdr), "SvtAv1EncApp-hdr");
}

#[test]
fn quarter_steps_as_decimals() {
    assert_eq!(crf_text(140), "35");
    assert_eq!(crf_text(141), "35.25");
    assert_eq!(crf_text(142), "35.5");
    assert_eq!(crf_text(143), "35.75");
    assert_eq!(crf_text(0), "0");
    for q in 0..300u32 {
        assert_eq!(crf_text(q), (f64::from(q) / 4.0).to_string());
    }
}

#[test]
fn flags_are_replaced_or_appended() {
    let mut args = vec!["--crf".to_string(), "28".to_string(), "--preset".to_string(), "6".to_string()];
    set_arg(&mut args, "--crf", "30".to_string());
    assert_eq!(args, vec!["--crf", "30", "--preset", "6"]);
    set_arg(&mut args, "--lp", "4".to_string());
    assert_eq!(args, vec!["--crf", "30", "--preset", "6", "--lp", "4"]);
    set_arg(&mut args, "--lp", "5".to_string());
    set_arg(&mut args, "--lp", "6".to_string());
    assert_eq!(args[5], "6");
    let mut cut_short = vec!["--crf".to_string()];
    set_arg(&mut cut_short, "--crf", "1".to_string());
    assert_eq!(cut_short, vec!["--crf", "--crf", "1"]);
}

#[test]
fn overrides_of_a_single_encode() {
    let config = config_with(&[("crf", 28), ("preset", 6)]);
    let over = EncodeOverrides { crf: Some(crf_text(113)), preset: Some(13) };
    let args = chunk_encoder_args(&config, "out.ivf", &options(None), over);
    assert_eq!(
        args,
        vec!["-b", "out.ivf", "--crf", "28.25", "--preset", "13", "--input", "-"]
    );
    let args = chunk_encoder_args(&config, "out.ivf", &options(None), EncodeOverrides::default());
    assert_eq!(args, vec!["-b", "out.ivf", "--crf", "28", "--preset", "6", "--input", "-"]);
}

#[test]
fn empty_chunks_are_refused() {
    assert_eq!(check_chunk_size("00001.ivf", 7).unwrap(), 7);
    let e = check_chunk_size("00001.ivf", 0).unwrap_err();
    assert_eq!(e.message(), "encoder produced empty file: 00001.ivf");
}

#[test]
fn paths_in_a_list_of_files() {
    assert_eq!(escape_path("/a/b.ivf"), "/a/b.ivf");
    assert_eq!(escape_path("/The Movie/it's\\1.ivf"), "/The\\ Movie/it\\'s\\\\1.ivf");
    let list = concat_list(&["/x/00001.ivf".to_string(), "/x y/00002.ivf".to_string()]);
    assert_eq!(list, "file /x/00001.ivf\nfile /x\\ y/00002.ivf\n");
    assert_eq!(concat_list(&[]), "");
}

#[test]
fn ffmpeg_command_lines() {
    let args = concat_args("list.txt", "out.mkv");
    assert_eq!(&args[8..10], &["-i".to_string(), "list.txt".to_string()]);
    assert_eq!(args.last().unwrap(), "out.mkv");
    let args = scaler_args((1280, 720));
    assert!(args.contains(&"scale=1280:720:flags=lanczos".to_string()));
    assert!(args.windows(2).any(|w| w[0] == "-strict" && w[1] == "-1"));
}
