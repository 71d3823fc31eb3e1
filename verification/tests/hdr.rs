use avxs::hdr::{
    describe_hdr, falls_back_to_base_layer, map_chroma, map_color_primaries, map_matrix, map_range,
    map_transfer, missing_metadata, val_to_i64, HdrError, HdrInfo, HdrProbe, JsonScalar,
    MasteringDisplay, SideData,
};
use avxs::measure::hdr_args_are_hlg;

fn probe(transfer: &str, kinds: &[&str]) -> HdrProbe {
    HdrProbe {
        color_primaries: "bt2020".to_string(),
        color_transfer: transfer.to_string(),
        color_space: "bt2020nc".to_string(),
        chroma_location: "topleft".to_string(),
        color_range: "tv".to_string(),
        side_data: kinds
            .iter()
            .map(|k| SideData {
                kind: k.to_string(),
                max_content: None,
                max_average: None,
                mastering: None,
            })
            .collect(),
        dolby_vision_profile: None,
    }
}

fn pair(a: &str, b: &str) -> (String, String) {
    (a.to_string(), b.to_string())
}

#[test]
fn h273_color_primaries() {
    assert_eq!(map_color_primaries("bt709"), Some(1));
    assert_eq!(map_color_primaries("bt2020"), Some(9));
    assert_eq!(map_color_primaries("smpte432"), Some(12));
    assert_eq!(map_color_primaries("ebu3213"), Some(22));
    assert_eq!(map_color_primaries("unknown"), None);
    assert_eq!(map_color_primaries(""), None);
}

#[test]
fn h273_transfer() {
    assert_eq!(map_transfer("smpte2084"), Some(16));
    assert_eq!(map_transfer("arib-std-b67"), Some(18));
    assert_eq!(map_transfer("bt2020-10"), Some(14));
    assert_eq!(map_transfer("nope"), None);
}

#[test]
fn h273_matrix_uses_ffprobe_shortnames() {
    assert_eq!(map_matrix("bt2020nc"), Some(9));
    assert_eq!(map_matrix("bt2020c"), Some(10));
    assert_eq!(map_matrix("ictcp"), Some(14));
}

#[test]
fn chroma_positions_and_ranges() {
    assert_eq!(map_chroma("left"), Some(1));
    assert_eq!(map_chroma("topleft"), Some(2));
    assert_eq!(map_chroma("center"), None);
    assert_eq!(map_range("tv"), Some(0));
    assert_eq!(map_range("pc"), Some(1));
    assert_eq!(map_range("unknown"), None);
}

#[test]
fn hdr_type_detection() {
    let mut i = HdrInfo::default();
    assert!(!i.is_hdr());
    i.hdr_type = "SDR".into();
    assert!(!i.is_hdr());
    i.hdr_type = "HDR10".into();
    assert!(i.is_hdr());
}

#[test]
fn encoder_args_only_for_set_fields() {
    let i = HdrInfo {
        color_primaries: Some(9),
        transfer_characteristics: Some(16),
        ..Default::default()
    };
    let args = i.encoder_args();
    assert_eq!(args, vec![
        "--color-primaries", "9",
        "--transfer-characteristics", "16",
    ]);
}

#[test]
fn encoder_args_of_a_full_source() {
    let mut p = probe("smpte2084", &["Mastering display metadata"]);
    p.side_data[0].max_content = Some(JsonScalar::Int(1000));
    p.side_data[0].max_average = Some(JsonScalar::Str("400".to_string()));
    p.side_data[0].mastering = Some(MasteringDisplay {
        green: pair("0.2650", "0.6900"),
        blue: pair("0.1500", "0.0600"),
        red: pair("0.6800", "0.3200"),
        white_point: pair("0.3127", "0.3290"),
        luminance: pair("1000.0000", "0.0050"),
    });
    let info = describe_hdr(&p).unwrap();
    assert_eq!(info.hdr_type, "HDR10");
    assert_eq!(
        info.encoder_args(),
        vec![
            "--color-primaries", "9",
            "--transfer-characteristics", "16",
            "--matrix-coefficients", "9",
            "--chroma-sample-position", "2",
            "--color-range", "0",
            "--content-light", "1000,400",
            "--mastering-display",
            "G(0.2650,0.6900)B(0.1500,0.0600)R(0.6800,0.3200)WP(0.3127,0.3290)L(1000.0000,0.0050)",
        ]
    );
    assert!(missing_metadata(&info).is_empty());
}

#[test]
fn kinds_of_hdr() {
    let kind = |t, k: &[&str]| describe_hdr(&probe(t, k)).unwrap().hdr_type;
    assert_eq!(kind("smpte2084", &["Dolby Vision RPU Data"]), "Dolby Vision");
    assert_eq!(kind("smpte2084", &["DOVI configuration record"]), "Dolby Vision");
    assert_eq!(kind("smpte2084", &["HDR10+ Dynamic Metadata"]), "HDR10+");
    assert_eq!(kind("smpte2084", &[]), "HDR10");
    assert_eq!(kind("arib-std-b67", &[]), "HLG");
    assert_eq!(kind("bt709", &["something else"]), "SDR");
}

#[test]
fn profile_five_is_refused() {
    let mut p = probe("smpte2084", &[]);
    p.dolby_vision_profile = Some(5);
    let e = describe_hdr(&p).unwrap_err();
    assert_eq!(e, HdrError::NoBaseLayer);
    assert!(e.message().contains("profile 5"));
    p.dolby_vision_profile = Some(8);
    let info = describe_hdr(&p).unwrap();
    assert_eq!(info.hdr_type, "HDR10");
    assert!(!falls_back_to_base_layer(&info));
}

#[test]
fn missing_metadata_is_listed() {
    let info = describe_hdr(&probe("smpte2084", &[])).unwrap();
    assert_eq!(missing_metadata(&info), vec!["MaxCLL/MaxFALL", "Mastering Display"]);
    let hlg = describe_hdr(&probe("arib-std-b67", &[])).unwrap();
    assert!(missing_metadata(&hlg).is_empty());
    let dv = describe_hdr(&probe("smpte2084", &["dovi"])).unwrap();
    assert!(falls_back_to_base_layer(&dv));
}

#[test]
fn hlg_is_told_from_the_options() {
    let hlg = describe_hdr(&probe("arib-std-b67", &[])).unwrap();
    assert!(hdr_args_are_hlg(&hlg.encoder_args()));
    let pq = describe_hdr(&probe("smpte2084", &[])).unwrap();
    assert!(!hdr_args_are_hlg(&pq.encoder_args()));
}

#[test]
fn reported_integers() {
    assert_eq!(val_to_i64(&JsonScalar::Int(-4)), -4);
    assert_eq!(val_to_i64(&JsonScalar::Str("1000".to_string())), 1000);
    assert_eq!(val_to_i64(&JsonScalar::Str("10/2".to_string())), 0);
    assert_eq!(val_to_i64(&JsonScalar::Other), 0);
}
