use avxs::crop::{
    combine_samples, cropdetect_args, parse_cropdetect, read_cache, sample_starts, CropVerdict,
};
use avxs::ffms2::{
    depth_conversion, detect_pixel_format, known_format, pixfmt_for, Crop, OpenOpts, PixelFormat,
    PixelSubsampling, FORMAT_COUNT,
};
use avxs::y4m::{chroma_geometry, frame_windows, y4m_frame, y4m_header, Plane, VideoInfo};

fn c(w: u32, h: u32, x: u32, y: u32) -> Crop {
    Crop { w, h, x, y }
}

fn info(w: u32, h: u32, sub: PixelSubsampling, depth: u32) -> VideoInfo {
    VideoInfo {
        width: w,
        height: h,
        fps_num: 24000,
        fps_den: 1001,
        sar_num: 0,
        sar_den: 1,
        num_frames: 100,
        pixel_format: PixelFormat { pix_fmt: 0, bit_depth: depth, subsampling: sub },
    }
}

#[test]
fn parses_both_spellings_and_rejects_short_lists() {
    assert_eq!(Crop::from_str("crop=640:360:0:60"), Some(c(640, 360, 0, 60)));
    assert_eq!(Crop::from_str("640:360:0:60"), Some(c(640, 360, 0, 60)));
    assert_eq!(Crop::from_str("640:360"), None);
    assert_eq!(Crop::from_str("640:360:0:60:8"), None);
}

#[test]
fn normalize_rounds_every_edge_to_even() {
    assert_eq!(c(641, 361, 1, 61).normalized(1920, 1080), Some(c(640, 360, 0, 60)));
}

#[test]
fn normalize_rejects_a_rectangle_outside_the_source() {
    // The crop cache is plain text and survives a profile change.
    assert_eq!(c(1920, 800, 0, 140).normalized(1280, 720), None);
    assert_eq!(c(640, 360, 700, 0).normalized(1280, 720), None);
    assert_eq!(c(0, 360, 0, 0).normalized(1280, 720), None);
    assert_eq!(c(u32::MAX, 2, 4, 0).normalized(1280, 720), None);
}

#[test]
fn normalize_accepts_a_crop_that_exactly_fills_the_source() {
    assert_eq!(c(1280, 720, 0, 0).normalized(1280, 720), Some(c(1280, 720, 0, 0)));
}

#[test]
fn normalizing_twice_changes_nothing() {
    let once = c(641, 361, 1, 61).normalized(1920, 1080).unwrap();
    assert_eq!(once.normalized(1920, 1080), Some(once));
}

#[test]
fn union_covers_both_samples() {
    // One sample sees bars, another sees content lower down.
    assert_eq!(c(640, 360, 0, 60).union(c(640, 400, 0, 40)), c(640, 400, 0, 40));
    assert_eq!(c(600, 360, 20, 60).union(c(640, 360, 0, 60)), c(640, 360, 0, 60));
}

#[test]
fn union_saturates_at_the_greatest_coordinate() {
    let u = c(u32::MAX, 10, 5, 0).union(c(10, 10, 0, 0));
    assert_eq!(u, c(u32::MAX, 10, 0, 0));
    assert_eq!(c(10, 10, 0, 0).union(c(u32::MAX, 10, 5, 0)), u);
}

#[test]
fn to_filter_round_trips() {
    let crop = c(640, 360, 0, 60);
    assert_eq!(crop.to_filter(), "crop=640:360:0:60");
    assert_eq!(Crop::from_str(&crop.to_filter()), Some(crop));
}

#[test]
fn chroma_planes_match_what_a_y4m_reader_expects() {
    // 853x480 4:2:0 needs 427x240 chroma; 426 columns puts every frame 480 bytes short.
    let geom = |ss, w, h| {
        let (cw, ch, _, _) = chroma_geometry(ss, w, h, 0, 0);
        (cw, ch)
    };
    assert_eq!(geom(PixelSubsampling::Yuv420, 853, 480), (427, 240));
    assert_eq!(geom(PixelSubsampling::Yuv420, 1920, 1080), (960, 540));
    assert_eq!(geom(PixelSubsampling::Yuv420, 640, 361), (320, 181));
    assert_eq!(geom(PixelSubsampling::Yuv422, 853, 480), (427, 480));
    assert_eq!(geom(PixelSubsampling::Yuv444, 853, 481), (853, 481));

    // An even crop keeps the chroma offset exact, which is why odd edges are rejected.
    assert_eq!(
        chroma_geometry(PixelSubsampling::Yuv420, 640, 360, 20, 60),
        (320, 180, 10, 30)
    );
}

#[test]
fn colour_spaces_of_the_stream() {
    let name = |sub, depth| PixelFormat { pix_fmt: 0, bit_depth: depth, subsampling: sub }.y4m_colorspace();
    assert_eq!(name(PixelSubsampling::Yuv420, 8), "420");
    assert_eq!(name(PixelSubsampling::Yuv420, 10), "420p10");
    assert_eq!(name(PixelSubsampling::Yuv422, 12), "422p12");
    assert_eq!(name(PixelSubsampling::Yuv444, 10), "444p10");
    assert_eq!(name(PixelSubsampling::Yuv444, 16), "420");
}

#[test]
fn pixel_formats_are_recognized() {
    let ids: Vec<i32> = (0..FORMAT_COUNT as i32).map(|i| i * 7 + 1).collect();
    for k in 0..FORMAT_COUNT {
        let (_, depth, sub) = known_format(k);
        let f = detect_pixel_format(ids[k], &ids);
        assert_eq!((f.pix_fmt, f.bit_depth, f.subsampling), (ids[k], depth, sub));
    }
    let unknown = detect_pixel_format(-5, &ids);
    assert_eq!((unknown.pix_fmt, unknown.bit_depth), (ids[0], 8));
    assert_eq!(known_format(4).0, "yuv420p16le");
}

#[test]
fn depths_that_reach_the_encoder() {
    let f = |depth| PixelFormat { pix_fmt: 3, bit_depth: depth, subsampling: PixelSubsampling::Yuv420 };
    let to = |d| OpenOpts { target_bit_depth: d };
    assert_eq!(depth_conversion(f(8), to(None)), Ok(None));
    assert_eq!(depth_conversion(f(10), to(Some(10))), Ok(None));
    assert_eq!(depth_conversion(f(8), to(Some(10))), Ok(Some((10, "yuv420p10le"))));
    assert_eq!(depth_conversion(f(16), to(None)), Ok(Some((10, "yuv420p10le"))));
    assert_eq!(depth_conversion(f(12), to(Some(8))), Ok(Some((8, "yuv420p"))));
    let e = depth_conversion(f(8), to(Some(9))).unwrap_err();
    assert_eq!((e.subsampling, e.depth), (PixelSubsampling::Yuv420, 9));
    assert_eq!(pixfmt_for(PixelSubsampling::Yuv444, 8), Some("yuv444p"));
    assert_eq!(f(8).with_depth(9, 10).bit_depth, 10);
    assert_eq!(f(10).bytes_per_sample(), 2);
}

#[test]
fn header_of_the_stream() {
    let i = info(1920, 1080, PixelSubsampling::Yuv420, 10);
    let (luma, _) = frame_windows(&i, None).unwrap();
    assert_eq!(
        y4m_header(&i, luma),
        "YUV4MPEG2 W1920 H1080 F24000:1001 Ip A0:0 C420p10\n"
    );
    let (luma, _) = frame_windows(&i, Some(c(1920, 800, 0, 140))).unwrap();
    let i = VideoInfo { sar_num: 4, sar_den: 3, ..i };
    assert_eq!(
        y4m_header(&i, luma),
        "YUV4MPEG2 W1920 H800 F24000:1001 Ip A4:3 C420p10\n"
    );
}

#[test]
fn crops_that_do_not_fit_are_refused() {
    let i = info(1280, 720, PixelSubsampling::Yuv420, 8);
    let e = frame_windows(&i, Some(c(641, 360, 0, 0))).unwrap_err();
    assert_eq!(e.message(), "crop 641:360:0:0 does not fit source 1280x720 (or has odd edges)");
    assert!(frame_windows(&i, Some(c(1280, 722, 0, 0))).is_err());
    assert!(frame_windows(&i, Some(c(0, 0, 0, 0))).is_err());
}

#[test]
fn frames_hold_the_rows_of_the_window() {
    let i = info(4, 2, PixelSubsampling::Yuv420, 8);
    let y: Vec<u8> = (0..12).collect();
    let u = [100u8, 101, 102];
    let v = [200u8, 201, 202];
    let planes = [
        Plane { data: &y, stride: 6 },
        Plane { data: &u, stride: 3 },
        Plane { data: &v, stride: 3 },
    ];
    let (luma, chroma) = frame_windows(&i, None).unwrap();
    let frame = y4m_frame(&planes, luma, chroma, 1);
    let mut expected = b"FRAME\n".to_vec();
    expected.extend([0, 1, 2, 3, 6, 7, 8, 9, 100, 101, 200, 201]);
    assert_eq!(frame, expected);

    let (luma, chroma) = frame_windows(&i, Some(c(2, 2, 2, 0))).unwrap();
    let frame = y4m_frame(&planes, luma, chroma, 1);
    let mut expected = b"FRAME\n".to_vec();
    expected.extend([2, 3, 8, 9, 101, 201]);
    assert_eq!(frame, expected);
}

#[test]
fn frames_of_ten_bits_have_two_bytes_a_sample() {
    let i = info(2, 2, PixelSubsampling::Yuv444, 10);
    let data: Vec<u8> = (0..8).collect();
    let planes = [
        Plane { data: &data, stride: 4 },
        Plane { data: &data, stride: 4 },
        Plane { data: &data, stride: 4 },
    ];
    let (luma, chroma) = frame_windows(&i, None).unwrap();
    let frame = y4m_frame(&planes, luma, chroma, i.pixel_format.bytes_per_sample());
    assert_eq!(frame.len(), 6 + 3 * 8);
    assert_eq!(&frame[6..14], &data[..]);
}

#[test]
fn properties_of_the_decoder() {
    let pf = PixelFormat { pix_fmt: 0, bit_depth: 8, subsampling: PixelSubsampling::Yuv420 };
    let i = VideoInfo::from_properties((640, 480), (25, 1), (-1, 0), 10, pf);
    assert_eq!((i.sar_num, i.sar_den), (0, 1));
    let i = VideoInfo::from_properties((640, 480), (25, 1), (4, 3), 10, pf);
    assert_eq!((i.sar_num, i.sar_den, i.num_frames), (4, 3, 10));
}

#[test]
fn last_box_of_a_sample_counts() {
    let out = "\
[Parsed_cropdetect_0 @ 0x1] x1:0 x2:1919 y1:140 y2:939 w:1920 h:800 x:0 y:140 pts:1 t:0.04 limit:0.09 crop=1920:800:0:140
[Parsed_cropdetect_0 @ 0x1] x1:0 x2:1919 y1:138 y2:941 crop=1920:804:0:138
video:0kB crop=broken
";
    assert_eq!(parse_cropdetect(out), Some(c(1920, 804, 0, 138)));
    assert_eq!(parse_cropdetect("nothing here\n"), None);
}

#[test]
fn samples_are_combined() {
    let bars = c(1920, 800, 0, 140);
    assert_eq!(combine_samples(&[bars, bars], 0, 1920, 1080), Ok(CropVerdict::Crop(bars)));
    let lower = c(1920, 810, 0, 140);
    assert_eq!(combine_samples(&[bars, lower], 1, 1920, 1080), Ok(CropVerdict::Crop(lower)));
    // less than one percent
    let noise = c(1920, 1078, 0, 0);
    assert_eq!(combine_samples(&[noise], 0, 1920, 1080), Ok(CropVerdict::NoBars));
    // more than 60 percent
    let lit = c(400, 400, 100, 100);
    assert_eq!(combine_samples(&[lit], 0, 1920, 1080), Ok(CropVerdict::Implausible(lit)));
    assert_eq!(combine_samples(&[], 0, 1920, 1080), Ok(CropVerdict::NoBars));
    assert_eq!(combine_samples(&[c(4000, 800, 0, 0)], 0, 1920, 1080), Ok(CropVerdict::NoBars));
    let e = combine_samples(&[], 5, 1920, 1080).unwrap_err();
    assert_eq!(e.message(), "auto-crop: all 5 cropdetect samples failed");
}

#[test]
fn crop_cache_reads_back() {
    let found = CropVerdict::Crop(c(1920, 800, 0, 140));
    let text = found.cache_entry().unwrap();
    assert_eq!(text, "crop=1920:800:0:140");
    assert_eq!(read_cache(&text), Some(Some("crop=1920:800:0:140".to_string())));
    let text = CropVerdict::NoBars.cache_entry().unwrap();
    assert_eq!(read_cache(&text), Some(None));
    assert_eq!(read_cache(""), None);
    assert_eq!(read_cache(" \n"), Some(None));
    assert_eq!(CropVerdict::Implausible(c(2, 2, 0, 0)).cache_entry(), None);
    assert_eq!(found.filter(), Some("crop=1920:800:0:140".to_string()));
    assert_eq!(CropVerdict::NoBars.filter(), None);
}

#[test]
fn samples_are_spread_over_the_runtime() {
    // 1000 seconds at 24 frames a second
    assert_eq!(sample_starts(24000, 24, 1), vec![100, 250, 400, 550, 700]);
    assert_eq!(sample_starts(24, 24000, 1001), vec![0, 0, 0, 0, 0]);
    let args = cropdetect_args(250, "in.mkv");
    assert_eq!(&args[..6], &["-ss", "250", "-i", "in.mkv", "-map", "0:v:0"].map(String::from));
    assert!(args.contains(&"cropdetect=0.094:2:0".to_string()));
}
