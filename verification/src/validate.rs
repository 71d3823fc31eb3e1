//! The rules that an encode profile has to meet.
use vstd::prelude::*;

use crate::config::{
    behind, bitrate_under, codec_is_lossless, codec_under, layout, layout_name, mode_under,
    output_is_lossless, override_for, AudioConfig, AudioMode, Bitrate, Config, SceneDetectionConfig,
    TargetQualityConfig, VideoMode, TEN_BITS, ZERO_BITS,
};
use crate::ieee::Real;
use crate::number::{dec, dec_u64};
use crate::text::{has_prefix, has_substring, opt_str, parts_are_found, plus, str_eq};

verus! {

/// What is wrong with a profile.
#[derive(Debug)]
pub enum ConfigError {
    EncoderMissing,
    BitDepth(u8),
    Scale(u32),
    TargetQualityNeedsEncode,
    JodMissing,
    JodRange(Real),
    MinCrf(u32),
    CrfOrder(u32, u32),
    MaxCrf(u32),
    MinProbes(u32),
    ProbeOrder(u32, u32),
    ProbePreset(u32),
    Tolerance(Real),
    MaxEncodedPercent(Real),
    MinSceneLen,
    ExtraSplit(u32),
    DownscaleHeight(u32),
    /// In the section `ctx` a codec is missing.
    CodecMissing { ctx: String },
    /// In the section `ctx` a bitrate is missing, though the codec needs one.
    BitrateMissing { ctx: String, codec: String },
    /// In the section `ctx` a table of bitrates has a key that is no layout.
    UnknownLayout { ctx: String, key: String },
}

/// The mathematical counterpart of [`ConfigError`].
pub enum ConfigProblem {
    EncoderMissing,
    BitDepth(u8),
    Scale(u32),
    TargetQualityNeedsEncode,
    JodMissing,
    JodRange(Real),
    MinCrf(u32),
    CrfOrder(u32, u32),
    MaxCrf(u32),
    MinProbes(u32),
    ProbeOrder(u32, u32),
    ProbePreset(u32),
    Tolerance(Real),
    MaxEncodedPercent(Real),
    MinSceneLen,
    ExtraSplit(u32),
    DownscaleHeight(u32),
    CodecMissing { ctx: Seq<char> },
    BitrateMissing { ctx: Seq<char>, codec: Seq<char> },
    UnknownLayout { ctx: Seq<char>, key: Seq<char> },
}

impl View for ConfigError {
    type V = ConfigProblem;

    open spec fn view(&self) -> ConfigProblem {
        match *self {
            ConfigError::EncoderMissing => ConfigProblem::EncoderMissing,
            ConfigError::BitDepth(d) => ConfigProblem::BitDepth(d),
            ConfigError::Scale(h) => ConfigProblem::Scale(h),
            ConfigError::TargetQualityNeedsEncode => ConfigProblem::TargetQualityNeedsEncode,
            ConfigError::JodMissing => ConfigProblem::JodMissing,
            ConfigError::JodRange(v) => ConfigProblem::JodRange(v),
            ConfigError::MinCrf(n) => ConfigProblem::MinCrf(n),
            ConfigError::CrfOrder(lo, hi) => ConfigProblem::CrfOrder(lo, hi),
            ConfigError::MaxCrf(n) => ConfigProblem::MaxCrf(n),
            ConfigError::MinProbes(n) => ConfigProblem::MinProbes(n),
            ConfigError::ProbeOrder(max, min) => ConfigProblem::ProbeOrder(max, min),
            ConfigError::ProbePreset(n) => ConfigProblem::ProbePreset(n),
            ConfigError::Tolerance(v) => ConfigProblem::Tolerance(v),
            ConfigError::MaxEncodedPercent(v) => ConfigProblem::MaxEncodedPercent(v),
            ConfigError::MinSceneLen => ConfigProblem::MinSceneLen,
            ConfigError::ExtraSplit(n) => ConfigProblem::ExtraSplit(n),
            ConfigError::DownscaleHeight(h) => ConfigProblem::DownscaleHeight(h),
            ConfigError::CodecMissing { ctx } => ConfigProblem::CodecMissing { ctx: ctx@ },
            ConfigError::BitrateMissing { ctx, codec } => ConfigProblem::BitrateMissing {
                ctx: ctx@,
                codec: codec@,
            },
            ConfigError::UnknownLayout { ctx, key } => ConfigProblem::UnknownLayout {
                ctx: ctx@,
                key: key@,
            },
        }
    }
}

/// The first of two problems, if there is any.
pub open spec fn first_problem(
    a: Option<ConfigProblem>,
    b: Option<ConfigProblem>,
) -> Option<ConfigProblem> {
    if a is Some {
        a
    } else {
        b
    }
}

/// A check's outcome is that there is no problem, or names the one there is.
pub open spec fn reports(r: Result<(), ConfigError>, problem: Option<ConfigProblem>) -> bool {
    match r {
        Ok(_) => problem is None,
        Err(e) => problem == Some(e@),
    }
}

pub open spec fn scene_problem(c: SceneDetectionConfig) -> Option<ConfigProblem> {
    if c.min_scene_len == 0 {
        Some(ConfigProblem::MinSceneLen)
    } else if 0 < c.extra_split < 24 {
        Some(ConfigProblem::ExtraSplit(c.extra_split))
    } else {
        match c.downscale_height {
            Some(h) if h < 64 => Some(ConfigProblem::DownscaleHeight(h)),
            _ => None,
        }
    }
}

impl SceneDetectionConfig {
    pub fn validate(&self) -> (r: Result<(), ConfigError>)
        ensures
            reports(r, scene_problem(*self)),
    {
        if self.min_scene_len == 0 {
            return Err(ConfigError::MinSceneLen);
        }
        if self.extra_split > 0 && self.extra_split < 24 {
            return Err(ConfigError::ExtraSplit(self.extra_split));
        }
        if let Some(h) = self.downscale_height {
            if h < 64 {
                return Err(ConfigError::DownscaleHeight(h));
            }
        }
        Ok(())
    }
}

/// A key of a table of bitrates that stands for some number of channels, or
/// for all that are not listed.
pub open spec fn known_layout(key: Seq<char>) -> bool {
    key == "default"@ || exists|channels: nat| key == #[trigger] layout(channels)
}

/// The first key of a table of bitrates that is no layout.
pub open spec fn layout_problem(ctx: Seq<char>, keys: Seq<Seq<char>>) -> Option<ConfigProblem>
    decreases keys.len(),
{
    if keys.len() == 0 {
        None
    } else if !known_layout(keys[0]) {
        Some(ConfigProblem::UnknownLayout { ctx, key: keys[0] })
    } else {
        layout_problem(ctx, keys.skip(1))
    }
}

pub open spec fn bitrate_problem(
    ctx: Seq<char>,
    bitrate: Option<Bitrate>,
) -> Option<ConfigProblem> {
    match bitrate {
        Some(Bitrate::PerLayout(map)) => layout_problem(ctx, map.keys()),
        _ => None,
    }
}

fn is_known_layout(key: &str) -> (r: bool)
    ensures
        r == known_layout(key@),
{
    if str_eq(key, "default") {
        return true;
    }
    let mut channels: u32 = 0;
    while channels <= 8
        invariant
            channels <= 9,
            key@ != "default"@,
            forall|c: nat| c < channels ==> key@ != #[trigger] layout(c),
        decreases 9 - channels,
    {
        if str_eq(layout_name(channels), key) {
            assert(key@ == layout(channels as nat));
            return true;
        }
        channels += 1;
    }
    assert forall|c: nat| key@ != #[trigger] layout(c) by {
        if c >= channels {
            assert(layout(c) == layout(8));
        }
    }
    false
}

/// A table of bitrates has no keys but layouts and `default`.
pub fn validate_bitrate_keys(ctx: &str, bitrate: Option<&Bitrate>) -> (r: Result<(), ConfigError>)
    ensures
        reports(r, bitrate_problem(ctx@, behind(bitrate))),
{
    if let Some(Bitrate::PerLayout(map)) = bitrate {
        let count: usize = map.len();
        let mut i: usize = 0;
        assert(map.keys().skip(0) =~= map.keys());
        while i < count
            invariant
                i <= count,
                count == map.keys().len(),
                bitrate_problem(ctx@, behind(bitrate)) == layout_problem(ctx@, map.keys()),
                layout_problem(ctx@, map.keys()) == layout_problem(
                    ctx@,
                    map.keys().skip(i as int),
                ),
            decreases count - i,
        {
            let key = map.key_at(i);
            assert(map.keys().skip(i as int)[0] == key@);
            assert(map.keys().skip(i as int).skip(1) =~= map.keys().skip(i + 1));
            if !is_known_layout(key.as_str()) {
                return Err(
                    ConfigError::UnknownLayout { ctx: ctx.to_owned(), key: key.clone() },
                );
            }
            i += 1;
        }
    }
    Ok(())
}

/// What is wrong with the audio settings of the section `ctx`: to encode takes
/// a codec, and a codec that loses something takes a bitrate.
pub open spec fn audio_problem(
    ctx: Seq<char>,
    mode: AudioMode,
    codec: Option<Seq<char>>,
    bitrate: Option<Bitrate>,
) -> Option<ConfigProblem> {
    first_problem(
        bitrate_problem(ctx, bitrate),
        if mode != AudioMode::Encode {
            None
        } else {
            match codec {
                None => Some(ConfigProblem::CodecMissing { ctx }),
                Some(codec) => if !codec_is_lossless(codec) && bitrate is None {
                    Some(ConfigProblem::BitrateMissing { ctx, codec })
                } else {
                    None
                },
            }
        },
    )
}

pub fn validate_audio(
    ctx: &str,
    mode: AudioMode,
    codec: Option<&str>,
    bitrate: Option<&Bitrate>,
) -> (r: Result<(), ConfigError>)
    ensures
        reports(r, audio_problem(ctx@, mode, opt_str(codec), behind(bitrate))),
{
    if let Err(e) = validate_bitrate_keys(ctx, bitrate) {
        return Err(e);
    }
    if mode != AudioMode::Encode {
        return Ok(());
    }
    match codec {
        None => Err(ConfigError::CodecMissing { ctx: ctx.to_owned() }),
        Some(codec) => {
            if !output_is_lossless(codec) && bitrate.is_none() {
                Err(ConfigError::BitrateMissing { ctx: ctx.to_owned(), codec: codec.to_owned() })
            } else {
                Ok(())
            }
        },
    }
}

pub open spec fn target_quality_problem(
    tq: TargetQualityConfig,
    video: VideoMode,
) -> Option<ConfigProblem> {
    let zero = Real { bits: ZERO_BITS };
    let ten = Real { bits: TEN_BITS };
    if video == VideoMode::Copy {
        Some(ConfigProblem::TargetQualityNeedsEncode)
    } else if tq.jod.key() == 0 {
        Some(ConfigProblem::JodMissing)
    } else if !(zero.less(tq.jod) && tq.jod.less(ten)) {
        Some(ConfigProblem::JodRange(tq.jod))
    } else if tq.min_crf < 1 {
        Some(ConfigProblem::MinCrf(tq.min_crf))
    } else if tq.min_crf >= tq.max_crf {
        Some(ConfigProblem::CrfOrder(tq.min_crf, tq.max_crf))
    } else if tq.max_crf > 70 {
        Some(ConfigProblem::MaxCrf(tq.max_crf))
    } else if tq.min_probes < 2 {
        Some(ConfigProblem::MinProbes(tq.min_probes))
    } else if tq.max_probes < tq.min_probes {
        Some(ConfigProblem::ProbeOrder(tq.max_probes, tq.min_probes))
    } else if tq.probe_preset > 13 {
        Some(ConfigProblem::ProbePreset(tq.probe_preset))
    } else if !tq.tolerance.finite() || tq.tolerance.less(zero) {
        Some(ConfigProblem::Tolerance(tq.tolerance))
    } else if !tq.max_encoded_percent.finite() || !zero.less(tq.max_encoded_percent) {
        Some(ConfigProblem::MaxEncodedPercent(tq.max_encoded_percent))
    } else {
        None
    }
}

impl TargetQualityConfig {
    pub fn validate(&self, video: VideoMode) -> (r: Result<(), ConfigError>)
        ensures
            reports(r, target_quality_problem(*self, video)),
    {
        let zero = Real { bits: ZERO_BITS };
        let ten = Real { bits: TEN_BITS };
        if video == VideoMode::Copy {
            return Err(ConfigError::TargetQualityNeedsEncode);
        }
        if self.jod.is_zero() {
            return Err(ConfigError::JodMissing);
        }
        if !(zero.lt(self.jod) && self.jod.lt(ten)) {
            return Err(ConfigError::JodRange(self.jod));
        }
        if self.min_crf < 1 {
            return Err(ConfigError::MinCrf(self.min_crf));
        }
        if self.min_crf >= self.max_crf {
            return Err(ConfigError::CrfOrder(self.min_crf, self.max_crf));
        }
        if self.max_crf > 70 {
            return Err(ConfigError::MaxCrf(self.max_crf));
        }
        if self.min_probes < 2 {
            return Err(ConfigError::MinProbes(self.min_probes));
        }
        if self.max_probes < self.min_probes {
            return Err(ConfigError::ProbeOrder(self.max_probes, self.min_probes));
        }
        if self.probe_preset > 13 {
            return Err(ConfigError::ProbePreset(self.probe_preset));
        }
        if !self.tolerance.is_finite() || self.tolerance.lt(zero) {
            return Err(ConfigError::Tolerance(self.tolerance));
        }
        if !self.max_encoded_percent.is_finite() || !zero.lt(self.max_encoded_percent) {
            return Err(ConfigError::MaxEncodedPercent(self.max_encoded_percent));
        }
        Ok(())
    }
}

/// What is wrong with the video settings of a profile.
pub open spec fn video_problem(c: Config) -> Option<ConfigProblem> {
    if c.avxs.video != VideoMode::Copy && c.encoder is None {
        Some(ConfigProblem::EncoderMissing)
    } else if c.avxs.bit_depth is Some && c.avxs.bit_depth != Some(8u8) && c.avxs.bit_depth != Some(
        10u8,
    ) {
        Some(ConfigProblem::BitDepth(c.avxs.bit_depth.unwrap()))
    } else if c.avxs.scale is Some && c.avxs.scale.unwrap() < 64 {
        Some(ConfigProblem::Scale(c.avxs.scale.unwrap()))
    } else {
        match c.target_quality {
            Some(tq) => target_quality_problem(tq, c.avxs.video),
            None => None,
        }
    }
}

/// What is wrong with the rule for the codec at position `i`.
pub open spec fn rule_problem(audio: AudioConfig, i: int) -> Option<ConfigProblem> {
    let over = Some(audio.codec_rules.values()[i]);
    audio_problem(
        "audio.codec_rules."@ + audio.codec_rules.keys()[i],
        mode_under(audio, over),
        codec_under(audio, over),
        bitrate_under(audio, over),
    )
}

/// The first problem among the rules for the first `n` codecs.
pub open spec fn rules_problem(audio: AudioConfig, n: nat) -> Option<ConfigProblem>
    decreases n,
{
    if n == 0 {
        None
    } else {
        first_problem(rules_problem(audio, (n - 1) as nat), rule_problem(audio, n - 1))
    }
}

/// What is wrong with the audio sections of a profile: the section itself, the
/// override for lossless sources, then the rules by codec in their order.
pub open spec fn audio_sections_problem(audio: AudioConfig) -> Option<ConfigProblem> {
    first_problem(
        audio_problem("audio"@, audio.mode, codec_under(audio, None), audio.bitrate),
        first_problem(
            if audio.lossless is None {
                None
            } else {
                audio_problem(
                    "audio.lossless"@,
                    mode_under(audio, audio.lossless),
                    codec_under(audio, audio.lossless),
                    bitrate_under(audio, audio.lossless),
                )
            },
            rules_problem(audio, audio.codec_rules.keys().len()),
        ),
    )
}

/// What is wrong with a profile, where several things are, the first of them.
pub open spec fn config_problem(c: Config) -> Option<ConfigProblem> {
    first_problem(
        video_problem(c),
        first_problem(scene_problem(c.scene_detection), audio_sections_problem(c.audio)),
    )
}

impl AudioConfig {
    pub fn validate(&self) -> (r: Result<(), ConfigError>)
        ensures
            reports(r, audio_sections_problem(*self)),
    {
        let codec = crate::text::as_opt_str(&self.codec);
        if let Err(e) = validate_audio("audio", self.mode, codec, self.bitrate.as_ref()) {
            return Err(e);
        }
        if let Some(over) = &self.lossless {
            let s = self.overlay(over);
            if let Err(e) = validate_audio("audio.lossless", s.mode, s.codec, s.bitrate) {
                return Err(e);
            }
        }
        self.validate_rules()
    }

    fn validate_rules(&self) -> (r: Result<(), ConfigError>)
        ensures
            reports(r, rules_problem(*self, self.codec_rules.keys().len())),
    {
        let count: usize = self.codec_rules.len();
        let mut i: usize = 0;
        while i < count
            invariant
                i <= count,
                count == self.codec_rules.keys().len(),
                rules_problem(*self, i as nat) is None,
            decreases count - i,
        {
            let s = self.overlay(self.codec_rules.value_at(i));
            let mut ctx = "audio.codec_rules.".to_owned();
            ctx.append(self.codec_rules.key_at(i).as_str());
            if let Err(e) = validate_audio(ctx.as_str(), s.mode, s.codec, s.bitrate) {
                proof {
                    assert(rules_problem(*self, (i + 1) as nat) == Some(e@));
                    lemma_first_rule_problem(*self, (i + 1) as nat, count as nat);
                }
                return Err(e);
            }
            i += 1;
        }
        Ok(())
    }
}

/// A problem among the first rules is the one that is found.
proof fn lemma_first_rule_problem(audio: AudioConfig, m: nat, n: nat)
    requires
        m <= n,
        rules_problem(audio, m) is Some,
    ensures
        rules_problem(audio, n) == rules_problem(audio, m),
    decreases n,
{
    if m < n {
        lemma_first_rule_problem(audio, m, (n - 1) as nat);
    }
}

impl Config {
    /// The rules are checked before anything is encoded, since most of the
    /// values are needed only late in a job.
    pub fn validate(&self) -> (r: Result<(), ConfigError>)
        ensures
            reports(r, config_problem(*self)),
    {
        if self.avxs.video != VideoMode::Copy && self.encoder.is_none() {
            return Err(ConfigError::EncoderMissing);
        }
        if let Some(d) = self.avxs.bit_depth {
            if d != 8 && d != 10 {
                return Err(ConfigError::BitDepth(d));
            }
        }
        if let Some(h) = self.avxs.scale {
            if h < 64 {
                return Err(ConfigError::Scale(h));
            }
        }
        if let Some(tq) = &self.target_quality {
            if let Err(e) = tq.validate(self.avxs.video) {
                return Err(e);
            }
        }
        if let Err(e) = self.scene_detection.validate() {
            return Err(e);
        }
        self.audio.validate()
    }
}

/// What a problem is called. `shown` is how the number of
/// [`ConfigError::number`] is written.
pub open spec fn problem_text(p: ConfigProblem, shown: Seq<char>) -> Seq<char> {
    match p {
        ConfigProblem::EncoderMissing => "encoder is required unless avxs.video = \"copy\""@,
        ConfigProblem::BitDepth(d) => "avxs.bit_depth must be 8 or 10 (got "@ + dec(d as nat) + ")"@,
        ConfigProblem::Scale(h) => "avxs.scale must be at least 64 (got "@ + dec(h as nat) + "); remove it to disable scaling"@,
        ConfigProblem::TargetQualityNeedsEncode => "target_quality requires avxs.video = \"encode\""@,
        ConfigProblem::JodMissing => "target_quality.jod is required: the CVVDP JOD floor to hold, in (0, 10)"@,
        ConfigProblem::JodRange(_) => "target_quality.jod must be in (0, 10) (got "@ + shown + ")"@,
        ConfigProblem::MinCrf(n) => "target_quality.min_crf must be >= 1 (got "@ + dec(n as nat) + ")"@,
        ConfigProblem::CrfOrder(lo, hi) => "target_quality.min_crf must be < max_crf ("@ + dec(lo as nat) + " >= "@ + dec(hi as nat) + ")"@,
        ConfigProblem::MaxCrf(n) => "target_quality.max_crf must be <= 70 (got "@ + dec(n as nat) + ")"@,
        ConfigProblem::MinProbes(n) => "target_quality.min_probes must be >= 2 (got "@ + dec(n as nat) + ")"@,
        ConfigProblem::ProbeOrder(max, min) => "target_quality.max_probes must be >= min_probes ("@ + dec(max as nat) + " < "@ + dec(min as nat) + ")"@,
        ConfigProblem::ProbePreset(n) => "target_quality.probe_preset must be 0..=13 (got "@ + dec(n as nat) + ")"@,
        ConfigProblem::Tolerance(_) => "target_quality.tolerance must be a finite value >= 0 (got "@ + shown + ")"@,
        ConfigProblem::MaxEncodedPercent(_) => "target_quality.max_encoded_percent must be a finite value > 0 (got "@ + shown + ")"@,
        ConfigProblem::MinSceneLen => "scene_detection.min_scene_len must be >= 1"@,
        ConfigProblem::ExtraSplit(n) => "scene_detection.extra_split must be >= 24 frames (got "@ + dec(n as nat) + "); use 0 to disable"@,
        ConfigProblem::DownscaleHeight(h) => "scene_detection.downscale_height must be at least 64 (got "@ + dec(h as nat) + "); remove it to disable the extra downscale"@,
        ConfigProblem::CodecMissing { ctx } => ctx + ": codec required when mode = encode"@,
        ConfigProblem::BitrateMissing { ctx, codec } => ctx + ": bitrate required when mode = encode ("@ + codec + " is lossy)"@,
        ConfigProblem::UnknownLayout { ctx, key } => ctx + ": unknown bitrate layout \""@ + key + "\"; expected one of mono, stereo, 3.0, quad, 5.0, 5.1, 6.1, 7.1, default"@,
    }
}

impl ConfigError {
    /// The floating-point number that the message speaks of.
    pub fn number(&self) -> (r: Option<Real>)
        ensures
            r == (match self@ {
                ConfigProblem::JodRange(v) => Some(v),
                ConfigProblem::Tolerance(v) => Some(v),
                ConfigProblem::MaxEncodedPercent(v) => Some(v),
                _ => None,
            }),
    {
        match self {
            ConfigError::JodRange(v) => Some(*v),
            ConfigError::Tolerance(v) => Some(*v),
            ConfigError::MaxEncodedPercent(v) => Some(*v),
            _ => None,
        }
    }

    /// The message for the user; `shown` is how [`ConfigError::number`] is
    /// written.
    pub fn message(&self, shown: &str) -> (r: String)
        ensures
            r@ == problem_text(self@, shown@),
    {
        match self {
            ConfigError::EncoderMissing => "encoder is required unless avxs.video = \"copy\"".to_owned(),
            ConfigError::BitDepth(d) => plus(plus("avxs.bit_depth must be 8 or 10 (got ".to_owned(), dec_u64(*d as u64).as_str()), ")"),
            ConfigError::Scale(h) => plus(plus("avxs.scale must be at least 64 (got ".to_owned(), dec_u64(*h as u64).as_str()), "); remove it to disable scaling"),
            ConfigError::TargetQualityNeedsEncode => "target_quality requires avxs.video = \"encode\"".to_owned(),
            ConfigError::JodMissing => "target_quality.jod is required: the CVVDP JOD floor to hold, in (0, 10)".to_owned(),
            ConfigError::JodRange(_) => plus(plus("target_quality.jod must be in (0, 10) (got ".to_owned(), shown), ")"),
            ConfigError::MinCrf(n) => plus(plus("target_quality.min_crf must be >= 1 (got ".to_owned(), dec_u64(*n as u64).as_str()), ")"),
            ConfigError::CrfOrder(lo, hi) => plus(plus(plus(plus("target_quality.min_crf must be < max_crf (".to_owned(), dec_u64(*lo as u64).as_str()), " >= "), dec_u64(*hi as u64).as_str()), ")"),
            ConfigError::MaxCrf(n) => plus(plus("target_quality.max_crf must be <= 70 (got ".to_owned(), dec_u64(*n as u64).as_str()), ")"),
            ConfigError::MinProbes(n) => plus(plus("target_quality.min_probes must be >= 2 (got ".to_owned(), dec_u64(*n as u64).as_str()), ")"),
            ConfigError::ProbeOrder(max, min) => plus(plus(plus(plus("target_quality.max_probes must be >= min_probes (".to_owned(), dec_u64(*max as u64).as_str()), " < "), dec_u64(*min as u64).as_str()), ")"),
            ConfigError::ProbePreset(n) => plus(plus("target_quality.probe_preset must be 0..=13 (got ".to_owned(), dec_u64(*n as u64).as_str()), ")"),
            ConfigError::Tolerance(_) => plus(plus("target_quality.tolerance must be a finite value >= 0 (got ".to_owned(), shown), ")"),
            ConfigError::MaxEncodedPercent(_) => plus(plus("target_quality.max_encoded_percent must be a finite value > 0 (got ".to_owned(), shown), ")"),
            ConfigError::MinSceneLen => "scene_detection.min_scene_len must be >= 1".to_owned(),
            ConfigError::ExtraSplit(n) => plus(plus("scene_detection.extra_split must be >= 24 frames (got ".to_owned(), dec_u64(*n as u64).as_str()), "); use 0 to disable"),
            ConfigError::DownscaleHeight(h) => plus(plus("scene_detection.downscale_height must be at least 64 (got ".to_owned(), dec_u64(*h as u64).as_str()), "); remove it to disable the extra downscale"),
            ConfigError::CodecMissing { ctx } => plus(ctx.clone(), ": codec required when mode = encode"),
            ConfigError::BitrateMissing { ctx, codec } => plus(plus(plus(ctx.clone(), ": bitrate required when mode = encode ("), codec.as_str()), " is lossy)"),
            ConfigError::UnknownLayout { ctx, key } => plus(plus(plus(ctx.clone(), ": unknown bitrate layout \""), key.as_str()), "\"; expected one of mono, stereo, 3.0, quad, 5.0, 5.1, 6.1, 7.1, default"),
        }
    }
}

proof fn lemma_no_rule_problem(audio: AudioConfig, n: nat, i: int)
    requires
        rules_problem(audio, n) is None,
        0 <= i < n,
    ensures
        rule_problem(audio, i) is None,
    decreases n,
{
    if i < n - 1 {
        lemma_no_rule_problem(audio, (n - 1) as nat, i);
    }
}

/// Under an accepted profile every track that is to be encoded has a codec,
/// and a bitrate unless the codec loses nothing, whichever override applies.
pub proof fn accepted_audio_can_be_encoded(c: Config, codec: Seq<char>, lossless: bool)
    requires
        config_problem(c) is None,
    ensures
        ({
            let over = override_for(c.audio, codec, lossless);
            mode_under(c.audio, over) == AudioMode::Encode ==> match codec_under(c.audio, over) {
                Some(target) => codec_is_lossless(target) || bitrate_under(c.audio, over) is Some,
                None => false,
            }
        }),
{
    let audio = c.audio;
    if audio.codec_rules@.contains_key(codec) {
        let keys = audio.codec_rules.keys();
        let i = keys.index_of(codec);
        assert(keys[i] == codec);
        lemma_no_rule_problem(audio, keys.len(), i);
        assert(audio.codec_rules@[codec] == audio.codec_rules.values()[i]);
    }
}

/// Under an accepted profile the search for a target quality has a range of
/// CRFs, a budget of at least two probes and a score that can be reached.
pub proof fn accepted_target_quality_is_searchable(c: Config)
    requires
        config_problem(c) is None,
        c.target_quality is Some,
    ensures
        ({
            let tq = c.target_quality.unwrap();
            &&& c.avxs.video == VideoMode::Encode
            &&& 1 <= tq.min_crf < tq.max_crf <= 70
            &&& 2 <= tq.min_probes <= tq.max_probes
            &&& tq.jod.finite() && 0 < tq.jod.value()
            &&& tq.tolerance.finite() && 0 <= tq.tolerance.value()
            &&& tq.max_encoded_percent.finite() && 0 < tq.max_encoded_percent.value()
        }),
{
    let tq = c.target_quality.unwrap();
    let zero = Real { bits: ZERO_BITS };
    assert(zero.value() == 0);
    crate::ieee::order_is_by_value(zero, tq.jod);
    crate::ieee::order_is_by_value(tq.tolerance, zero);
    crate::ieee::order_is_by_value(zero, tq.max_encoded_percent);
}

proof fn lemma_all_known(ctx: Seq<char>, keys: Seq<Seq<char>>)
    ensures
        layout_problem(ctx, keys) is None <==> forall|i: int|
            0 <= i < keys.len() ==> known_layout(#[trigger] keys[i]),
    decreases keys.len(),
{
    if keys.len() > 0 {
        let rest = keys.skip(1);
        lemma_all_known(ctx, rest);
        if known_layout(keys[0]) {
            if forall|i: int| 0 <= i < rest.len() ==> known_layout(#[trigger] rest[i]) {
                assert forall|i: int| 0 <= i < keys.len() implies known_layout(
                    #[trigger] keys[i],
                ) by {
                    if i > 0 {
                        assert(rest[i - 1] == keys[i]);
                    }
                }
            } else {
                let i = choose|i: int| 0 <= i < rest.len() && !known_layout(#[trigger] rest[i]);
                assert(keys[i + 1] == rest[i]);
            }
        }
    }
}

/// A table of bitrates may have these keys and no others.
pub proof fn layouts_are_known_by_name(key: Seq<char>)
    ensures
        known_layout(key) <==> key == "mono"@ || key == "stereo"@ || key == "3.0"@ || key
            == "quad"@ || key == "5.0"@ || key == "5.1"@ || key == "6.1"@ || key == "7.1"@ || key
            == "default"@,
{
    assert(layout(1) == "mono"@);
    assert(layout(2) == "stereo"@);
    assert(layout(3) == "3.0"@);
    assert(layout(4) == "quad"@);
    assert(layout(5) == "5.0"@);
    assert(layout(6) == "5.1"@);
    assert(layout(7) == "6.1"@);
    assert(layout(8) == "7.1"@);
}

/// Audio settings that can be carried out: a table of bitrates has no unknown key, and
/// to encode there is a codec, with a bitrate unless it loses nothing.
pub open spec fn audio_fits(
    mode: AudioMode,
    codec: Option<Seq<char>>,
    bitrate: Option<Bitrate>,
) -> bool {
    &&& bitrate matches Some(Bitrate::PerLayout(map)) ==> forall|i: int|
        0 <= i < map.keys().len() ==> known_layout(#[trigger] map.keys()[i])
    &&& mode == AudioMode::Encode ==> codec is Some && (codec_is_lossless(codec.unwrap())
        || bitrate is Some)
}

proof fn lemma_audio_fits(
    ctx: Seq<char>,
    mode: AudioMode,
    codec: Option<Seq<char>>,
    bitrate: Option<Bitrate>,
)
    ensures
        audio_problem(ctx, mode, codec, bitrate) is None <==> audio_fits(mode, codec, bitrate),
{
    if let Some(Bitrate::PerLayout(map)) = bitrate {
        lemma_all_known(ctx, map.keys());
    }
}

proof fn lemma_rules_problem(audio: AudioConfig, n: nat)
    ensures
        rules_problem(audio, n) is None <==> forall|i: int|
            0 <= i < n ==> (#[trigger] rule_problem(audio, i)) is None,
    decreases n,
{
    if n > 0 {
        lemma_rules_problem(audio, (n - 1) as nat);
    }
}

/// A profile's audio is accepted exactly when it can be carried out as the section sets
/// it, as the override for lossless sources changes it, and as each rule for a codec
/// changes it.
pub proof fn audio_is_accepted_when_it_fits(audio: AudioConfig)
    ensures
        audio_sections_problem(audio) is None <==> {
            &&& audio_fits(audio.mode, codec_under(audio, None), audio.bitrate)
            &&& audio.lossless is Some ==> audio_fits(
                mode_under(audio, audio.lossless),
                codec_under(audio, audio.lossless),
                bitrate_under(audio, audio.lossless),
            )
            &&& forall|i: int|
                0 <= i < audio.codec_rules.keys().len() ==> {
                    let over = Some(#[trigger] audio.codec_rules.values()[i]);
                    audio_fits(
                        mode_under(audio, over),
                        codec_under(audio, over),
                        bitrate_under(audio, over),
                    )
                }
        },
{
    lemma_audio_fits("audio"@, audio.mode, codec_under(audio, None), audio.bitrate);
    lemma_audio_fits(
        "audio.lossless"@,
        mode_under(audio, audio.lossless),
        codec_under(audio, audio.lossless),
        bitrate_under(audio, audio.lossless),
    );
    let n = audio.codec_rules.keys().len();
    lemma_rules_problem(audio, n);
    assert forall|i: int| 0 <= i < n implies ((#[trigger] rule_problem(audio, i)) is None <==> {
        let over = Some(audio.codec_rules.values()[i]);
        audio_fits(mode_under(audio, over), codec_under(audio, over), bitrate_under(audio, over))
    }) by {
        let over = Some(audio.codec_rules.values()[i]);
        lemma_audio_fits(
            "audio.codec_rules."@ + audio.codec_rules.keys()[i],
            mode_under(audio, over),
            codec_under(audio, over),
            bitrate_under(audio, over),
        );
    }
    if rules_problem(audio, n) is None {
        assert forall|i: int| 0 <= i < n implies {
            let over = Some(#[trigger] audio.codec_rules.values()[i]);
            audio_fits(
                mode_under(audio, over),
                codec_under(audio, over),
                bitrate_under(audio, over),
            )
        } by {
            assert(rule_problem(audio, i) is None);
        }
    } else {
        let i = choose|i: int| 0 <= i < n && (#[trigger] rule_problem(audio, i)) is Some;
        let over = Some(audio.codec_rules.values()[i]);
        assert(!audio_fits(
            mode_under(audio, over),
            codec_under(audio, over),
            bitrate_under(audio, over),
        ));
    }
}

/// A search for a target quality is accepted exactly when the video is encoded, the
/// score lies between 0 and 10, the range of CRFs is not empty and lies between 1 and
/// 70, there are two probes at least and as many as the least number at most, the preset
/// is at most 13, and the two other numbers are finite, the tolerance not below zero
/// and the percentage above it.
pub proof fn target_quality_is_accepted_within_its_bounds(
    tq: TargetQualityConfig,
    video: VideoMode,
)
    ensures
        target_quality_problem(tq, video) is None <==> {
            let zero = Real { bits: 0 };
            &&& video == VideoMode::Encode
            &&& zero.less(tq.jod) && tq.jod.less(Real { bits: 0x4024_0000_0000_0000 })
            &&& 1 <= tq.min_crf && tq.min_crf < tq.max_crf && tq.max_crf <= 70
            &&& 2 <= tq.min_probes && tq.min_probes <= tq.max_probes
            &&& tq.probe_preset <= 13
            &&& tq.tolerance.finite() && !tq.tolerance.less(zero)
            &&& tq.max_encoded_percent.finite() && zero.less(tq.max_encoded_percent)
        },
{
    let zero = Real { bits: ZERO_BITS };
    assert(zero.key() == 0);
}

/// Scene detection is accepted exactly when scenes have a frame at least, chunks are not
/// split or have 24 frames at least, and the picture is not made smaller than 64 rows.
pub proof fn scene_detection_is_accepted_within_its_bounds(c: SceneDetectionConfig)
    ensures
        scene_problem(c) is None <==> {
            &&& c.min_scene_len >= 1
            &&& c.extra_split == 0 || c.extra_split >= 24
            &&& c.downscale_height matches Some(h) ==> h >= 64
        },
{
}

/// A profile is accepted exactly when every part of it is, there is an encoder where one
/// is needed, the bit depth is 8 or 10 and the height is 64 at least. Of several
/// problems that of the video comes first, then that of scene detection.
pub proof fn profiles_are_accepted_when_every_part_is(c: Config)
    ensures
        config_problem(c) is None <==> {
            &&& c.avxs.video == VideoMode::Copy || c.encoder is Some
            &&& c.avxs.bit_depth matches Some(d) ==> d == 8 || d == 10
            &&& c.avxs.scale matches Some(h) ==> h >= 64
            &&& c.target_quality matches Some(tq) ==> target_quality_problem(
                tq,
                c.avxs.video,
            ) is None
            &&& scene_problem(c.scene_detection) is None
            &&& audio_sections_problem(c.audio) is None
        },
        c.avxs.video == VideoMode::Encode && c.encoder is None ==> config_problem(c) == Some(
            ConfigProblem::EncoderMissing,
        ),
        video_problem(c) is Some ==> config_problem(c) == video_problem(c),
        video_problem(c) is None && scene_problem(c.scene_detection) is Some ==> config_problem(c)
            == scene_problem(c.scene_detection),
{
}

/// A profile is accepted exactly when there is no problem, and else the problem is the one
/// that is reported.
pub proof fn problems_are_reported(c: &Config, r: Result<(), ConfigError>)
    requires
        call_ensures(Config::validate, (c,), r),
    ensures
        r is Ok <==> config_problem(*c) is None,
        r matches Err(e) ==> config_problem(*c) == Some(e@),
{
}

/// A message names the section and the setting that it is about, and the value that was
/// refused.
pub proof fn messages_name_the_refused_value(
    n: u32,
    d: u8,
    v: Real,
    shown: Seq<char>,
    ctx: Seq<char>,
    key: Seq<char>,
)
    ensures
        problem_text(ConfigProblem::BitDepth(d), shown) == "avxs.bit_depth must be 8 or 10 (got "@
            + dec(d as nat) + ")"@,
        has_substring(problem_text(ConfigProblem::Scale(n), shown), "(got "@ + dec(n as nat)),
        has_substring(problem_text(ConfigProblem::JodRange(v), shown), "(got "@ + shown),
        has_substring(problem_text(ConfigProblem::MinCrf(n), shown), "(got "@ + dec(n as nat)),
        has_substring(problem_text(ConfigProblem::MaxCrf(n), shown), "(got "@ + dec(n as nat)),
        has_substring(problem_text(ConfigProblem::MinProbes(n), shown), "(got "@ + dec(n as nat)),
        has_substring(problem_text(ConfigProblem::ProbePreset(n), shown), "(got "@ + dec(n as nat)),
        has_substring(problem_text(ConfigProblem::Tolerance(v), shown), "(got "@ + shown),
        has_substring(problem_text(ConfigProblem::MaxEncodedPercent(v), shown), "(got "@ + shown),
        has_substring(problem_text(ConfigProblem::ExtraSplit(n), shown), "(got "@ + dec(n as nat)),
        has_substring(
            problem_text(ConfigProblem::DownscaleHeight(n), shown),
            "(got "@ + dec(n as nat),
        ),
        has_prefix(problem_text(ConfigProblem::CodecMissing { ctx }, shown), ctx),
        has_prefix(problem_text(ConfigProblem::BitrateMissing { ctx, codec: key }, shown), ctx),
        has_substring(problem_text(ConfigProblem::BitrateMissing { ctx, codec: key }, shown), key),
        has_prefix(problem_text(ConfigProblem::UnknownLayout { ctx, key }, shown), ctx),
        has_substring(problem_text(ConfigProblem::UnknownLayout { ctx, key }, shown), key),
{
    let got = "(got "@;
    let num = dec(n as nat);
    reveal_strlit("(got ");
    reveal_strlit("avxs.scale must be at least 64 (got ");
    reveal_strlit("target_quality.jod must be in (0, 10) (got ");
    reveal_strlit("target_quality.min_crf must be >= 1 (got ");
    reveal_strlit("target_quality.max_crf must be <= 70 (got ");
    reveal_strlit("target_quality.min_probes must be >= 2 (got ");
    reveal_strlit("target_quality.probe_preset must be 0..=13 (got ");
    reveal_strlit("target_quality.tolerance must be a finite value >= 0 (got ");
    reveal_strlit("target_quality.max_encoded_percent must be a finite value > 0 (got ");
    reveal_strlit("scene_detection.extra_split must be >= 24 frames (got ");
    reveal_strlit("scene_detection.downscale_height must be at least 64 (got ");
    lemma_value_named("avxs.scale must be at least 64 (got "@, num, "); remove it to disable scaling"@);
    lemma_value_named("target_quality.jod must be in (0, 10) (got "@, shown, ")"@);
    lemma_value_named("target_quality.min_crf must be >= 1 (got "@, num, ")"@);
    lemma_value_named("target_quality.max_crf must be <= 70 (got "@, num, ")"@);
    lemma_value_named("target_quality.min_probes must be >= 2 (got "@, num, ")"@);
    lemma_value_named("target_quality.probe_preset must be 0..=13 (got "@, num, ")"@);
    lemma_value_named("target_quality.tolerance must be a finite value >= 0 (got "@, shown, ")"@);
    lemma_value_named(
        "target_quality.max_encoded_percent must be a finite value > 0 (got "@,
        shown,
        ")"@,
    );
    lemma_value_named(
        "scene_detection.extra_split must be >= 24 frames (got "@,
        num,
        "); use 0 to disable"@,
    );
    lemma_value_named(
        "scene_detection.downscale_height must be at least 64 (got "@,
        num,
        "); remove it to disable the extra downscale"@,
    );
    parts_are_found(ctx, ctx, ": codec required when mode = encode"@);
    let a = ": bitrate required when mode = encode ("@;
    let b = " is lossy)"@;
    assert(ctx + a + key + b =~= ctx + (a + key + b));
    parts_are_found(ctx, ctx, a + key + b);
    parts_are_found(ctx + a, key, b);
    let c = ": unknown bitrate layout \""@;
    let d2 = "\"; expected one of mono, stereo, 3.0, quad, 5.0, 5.1, 6.1, 7.1, default"@;
    assert(ctx + c + key + d2 =~= ctx + (c + key + d2));
    parts_are_found(ctx, ctx, c + key + d2);
    parts_are_found(ctx + c, key, d2);
}

proof fn lemma_value_named(front: Seq<char>, value: Seq<char>, behind_it: Seq<char>)
    requires
        front.len() >= 5,
        front.skip(front.len() - 5) =~= "(got "@,
    ensures
        has_substring(front + value + behind_it, "(got "@ + value),
{
    let lead = front.take(front.len() - 5);
    assert(front =~= lead + "(got "@);
    assert(front + value + behind_it =~= lead + ("(got "@ + value) + behind_it);
    parts_are_found(lead, "(got "@ + value, behind_it);
}

} // verus!
