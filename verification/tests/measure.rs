use avxs::ffms2::Crop;
use avxs::ieee::Real;
use avxs::measure::{
    display_model_for, hdr_args_are_hlg, last_score, measure_args, parse_cvvdp, require_gpu,
    select_gpu, CvvdpError, GpuError, MeasureOpts,
};
use avxs::vmaf::{
    distorted_args, model_for_height, reference_args, vmaf_args, MODEL_1080, MODEL_2160,
};

#[test]
fn display_model_picked_by_height_and_hdr() {
    assert_eq!(display_model_for(720, false, false), "standard_fhd");
    assert_eq!(display_model_for(1080, false, false), "standard_fhd");
    assert_eq!(display_model_for(1439, false, false), "standard_fhd");
    assert_eq!(display_model_for(1440, false, false), "standard_4k");
    assert_eq!(display_model_for(2160, false, false), "standard_4k");
    assert_eq!(display_model_for(2160, true, false), "standard_hdr_pq");
    // HLG picks the HLG display even at 4K
    assert_eq!(display_model_for(2160, true, true), "standard_hdr_hlg");
}

#[test]
fn hlg_detected_from_transfer_arg() {
    let pq = vec!["--transfer-characteristics".to_string(), "16".to_string()];
    let hlg = vec!["--transfer-characteristics".to_string(), "18".to_string()];
    assert!(!hdr_args_are_hlg(&pq));
    assert!(hdr_args_are_hlg(&hlg));
    assert!(!hdr_args_are_hlg(&[]));
}

#[test]
fn select_gpu_prefers_hardware() {
    let list = "GPU 0: NVIDIA GeForce RTX 5060 Ti\nGPU 1: llvmpipe (LLVM 22.1.7, 256 bits)\n";
    let g = select_gpu(list).unwrap();
    assert_eq!(g.id, 0);
    assert!(g.hardware);
}

#[test]
fn select_gpu_picks_hardware_even_after_software() {
    let list = "GPU 0: llvmpipe (LLVM 22.1.7)\nGPU 1: Intel Graphics\n";
    let g = select_gpu(list).unwrap();
    assert_eq!(g.id, 1);
    assert!(g.hardware);
}

#[test]
fn select_gpu_reports_software_only() {
    // a software renderer is found, and `require_gpu` then rejects it
    let g = select_gpu("GPU 0: llvmpipe (LLVM 22.1.7)\n").unwrap();
    assert_eq!(g.id, 0);
    assert!(!g.hardware);
}

#[test]
fn gpus_that_cannot_measure() {
    let ok = require_gpu(true, "GPU 2: Intel Arc\n", "").unwrap();
    assert_eq!(ok.id, 2);
    assert_eq!(ok.describe(), "gpu 2 Intel Arc");
    let e = require_gpu(true, "GPU 0: llvmpipe\n", "").unwrap_err();
    assert!(matches!(&e, GpuError::SoftwareOnly(_)));
    assert!(e.message().contains("llvmpipe"));
    assert!(matches!(require_gpu(true, "nothing\n", "").unwrap_err(), GpuError::NoDevice));
    let e = require_gpu(false, "", "no driver").unwrap_err();
    assert!(matches!(&e, GpuError::NoVulkan(_)));
    assert!(e.message().contains("no driver"));
    assert!(select_gpu("").is_none());
}

#[test]
fn parse_cvvdp_takes_last_cumulative() {
    let score = parse_cvvdp("[[9.95],[9.90],[9.83]]").unwrap();
    assert!((f64::from_bits(score.bits) - 9.83).abs() < 1e-9);
    assert!(parse_cvvdp("[]").is_err());
}

#[test]
fn scores_in_other_forms() {
    let score = parse_cvvdp(" [[9, 8.5], [7e0]] \n").unwrap();
    assert_eq!(f64::from_bits(score.bits), 7.0);
    assert_eq!(f64::from_bits(parse_cvvdp("[[9]]").unwrap().bits), 9.0);
    assert!(matches!(parse_cvvdp("[[]]"), Err(CvvdpError::NoScores)));
    assert!(matches!(parse_cvvdp("[]"), Err(CvvdpError::NoScores)));
    for bad in ["", "9.5", "[9.5]", "[[null]]", "[[1e999]]", "[[9.5]] x"] {
        let e = parse_cvvdp(bad).unwrap_err();
        assert!(matches!(&e, CvvdpError::Json(_)), "{bad}");
        assert_eq!(e.message(), "parse FFVship CVVDP json");
    }
    assert_eq!(CvvdpError::NoScores.message(), "FFVship CVVDP json had no scores");
}

#[test]
fn the_last_number_counts() {
    assert_eq!(last_score(&[vec![1], vec![2, 3]]), Some(Real { bits: 3 }));
    assert_eq!(last_score(&[vec![1], vec![]]), None);
    assert_eq!(last_score(&[]), None);
}

#[test]
fn measurement_command_line() {
    let mut m = MeasureOpts {
        distorted: "probe.ivf",
        source: "in.mkv",
        index: "in.ffindex",
        start: 240,
        crop: None,
        source_width: 1920,
        source_height: 1080,
        display_model: "standard_fhd",
        gpu_id: 1,
        n_threads: 4,
        json: "out.json",
    };
    let plain = vec![
        "-s", "in.mkv", "-e", "probe.ivf", "-m", "CVVDP", "--source-index", "in.ffindex",
        "--start", "240", "--encoded-offset", "-240", "--displayModel", "standard_fhd",
        "--gpu-id", "1", "-t", "4", "-g", "3", "--json", "out.json",
    ];
    assert_eq!(measure_args(&m), plain);
    m.crop = Some(Crop { w: 1900, h: 800, x: 12, y: 140 });
    let args = measure_args(&m);
    assert_eq!(
        args[plain.len()..],
        [
            "--cropLeftSource", "12", "--cropTopSource", "140", "--cropRightSource", "8",
            "--cropBottomSource", "140",
        ]
    );
}

#[test]
fn model_picked_by_height() {
    assert_eq!(model_for_height(720), MODEL_1080);
    assert_eq!(model_for_height(1080), MODEL_1080);
    assert_eq!(model_for_height(1439), MODEL_1080);
    assert_eq!(model_for_height(1440), MODEL_2160);
    assert_eq!(model_for_height(2160), MODEL_2160);
}

#[test]
fn vmaf_command_lines() {
    let m = avxs::vmaf::MeasureOpts {
        distorted: "probe.ivf",
        source: "in.mkv",
        index: "in.ffindex",
        start: 0,
        end: 9,
        crop: None,
        scale: Some((1280, 720)),
        target_bit_depth: None,
        fps_num: 24,
        fps_den: 1,
        model: MODEL_1080,
        n_threads: 8,
    };
    let args = distorted_args(&m, "d.y4m");
    assert_eq!(
        args,
        vec![
            "-hide_banner", "-loglevel", "error", "-y", "-i", "probe.ivf", "-vf",
            "format=yuv420p10le", "-strict", "-1", "-f", "yuv4mpegpipe", "d.y4m",
        ]
    );
    let args = reference_args(&m, "r.y4m");
    assert!(args.contains(&"scale=1280:720:flags=lanczos,format=yuv420p10le".to_string()));
    assert_eq!(
        vmaf_args(&m, "r.y4m", "d.y4m", "v.json"),
        vec![
            "-r", "r.y4m", "-d", "d.y4m", "-m", "version=vmaf_v1.0.16_3d0h", "--json", "-o",
            "v.json", "--threads", "8",
        ]
    );
}
