//! Encode profiles: their settings, the defaults, and what follows from them for
//! a track or for the encoder.
use vstd::prelude::*;

use crate::ieee::Real;
use crate::number::{dec_i64, dec_int};
use crate::strmap::StrMap;
use crate::text::{
    as_opt_str, ascii_lower, has_prefix, is_space, lemma_trim_start, opt_str, opt_view,
    starts_with, str_eq, to_ascii_lower, to_chars, trim, trim_end, trim_start, trimmed, views,
};

verus! {

/// The bit patterns of the numbers 0, 0.5, 10 and 90.
pub const ZERO_BITS: u64 = 0;

pub const HALF_BITS: u64 = 0x3fe0_0000_0000_0000;

pub const TEN_BITS: u64 = 0x4024_0000_0000_0000;

pub const NINETY_BITS: u64 = 0x4056_8000_0000_0000;

/// A value of a profile's option table.
#[derive(Debug)]
pub enum ParamValue {
    Str(String),
    Int(i64),
    /// A floating-point number, and the way it is written.
    Float { value: Real, text: String },
    Bool(bool),
    /// Anything else, as it is written.
    Other(String),
}

#[derive(Debug, Clone, Copy, PartialEq, Eq, Structural)]
pub enum Encoder {
    SvtAv1,
    SvtAv1Hdr,
}

#[derive(Debug, Clone, Copy, PartialEq, Eq, Structural)]
pub enum VideoMode {
    Encode,
    Copy,
}

#[derive(Debug, Clone, Copy, PartialEq, Eq, Structural)]
pub struct AvxsConfig {
    pub video: VideoMode,
    pub hdr: bool,
    pub crop: bool,
    pub keyint: bool,
    pub scale: Option<u32>,
    pub bit_depth: Option<u8>,
    pub keep_temp: bool,
}

#[derive(Debug, Clone, Copy, PartialEq, Eq, Structural)]
pub enum SubtitleMode {
    Copy,
    Strip,
}

#[derive(Debug)]
pub struct SubtitleConfig {
    pub mode: SubtitleMode,
    pub language_whitelist: Vec<String>,
}

#[derive(Debug, Clone, Copy, PartialEq, Eq, Structural)]
pub enum AudioMode {
    Copy,
    Encode,
}

/// A single bitrate, or a table of bitrates by channel layout, in which
/// `default` stands for every layout that is not listed.
#[derive(Debug)]
pub enum Bitrate {
    Single(String),
    PerLayout(StrMap<String>),
}

/// An override of the audio settings; what it leaves unset is inherited.
#[derive(Debug)]
pub struct AudioProfile {
    pub mode: Option<AudioMode>,
    pub codec: Option<String>,
    pub bitrate: Option<Bitrate>,
    pub options: StrMap<ParamValue>,
}

#[derive(Debug)]
pub struct AudioConfig {
    pub mode: AudioMode,
    pub codec: Option<String>,
    pub bitrate: Option<Bitrate>,
    pub options: StrMap<ParamValue>,
    pub language_whitelist: Vec<String>,
    /// The override for tracks whose source is lossless.
    pub lossless: Option<AudioProfile>,
    /// The overrides by source codec.
    pub codec_rules: StrMap<AudioProfile>,
}

#[derive(Debug, Clone, Copy, PartialEq, Eq, Structural)]
pub enum SceneDetectionSpeedConfig {
    Standard,
    Fast,
}

#[derive(Debug, Clone, Copy, PartialEq, Eq, Structural)]
pub struct SceneDetectionConfig {
    /// The least number of frames between two cuts.
    pub min_scene_len: usize,
    /// The greatest length of a chunk in seconds; zero for none.
    pub extra_split_sec: u32,
    /// The greatest length of a chunk in frames. Unless it is zero it takes
    /// the place of `extra_split_sec`.
    pub extra_split: u32,
    pub speed: SceneDetectionSpeedConfig,
    /// The height to which the video is scaled down for scene detection alone.
    pub downscale_height: Option<u32>,
}

#[derive(Debug, Clone, Copy, PartialEq, Eq, Structural)]
pub struct TargetQualityConfig {
    /// The score that each chunk has to hold. Zero stands for a missing one.
    pub jod: Real,
    pub min_crf: u32,
    pub max_crf: u32,
    pub min_probes: u32,
    pub max_probes: u32,
    /// The search stops early at a probe that is at most this far above `jod`.
    pub tolerance: Real,
    pub probe_preset: u32,
    /// The greatest size of a chunk, as a percentage of its source.
    pub max_encoded_percent: Real,
}

/// An encode profile.
#[derive(Debug)]
pub struct Config {
    pub encoder: Option<Encoder>,
    pub encoder_params: StrMap<ParamValue>,
    pub avxs: AvxsConfig,
    pub audio: AudioConfig,
    pub subtitles: SubtitleConfig,
    pub scene_detection: SceneDetectionConfig,
    pub target_quality: Option<TargetQualityConfig>,
}

/// The audio settings of one track.
pub struct ResolvedAudio<'a> {
    pub mode: AudioMode,
    pub codec: Option<&'a str>,
    pub bitrate: Option<&'a Bitrate>,
    pub options: &'a StrMap<ParamValue>,
}

/// The channel layout that stands for a number of channels in a table of
/// bitrates.
pub open spec fn layout(channels: nat) -> Seq<char> {
    if channels <= 1 {
        "mono"@
    } else if channels == 2 {
        "stereo"@
    } else if channels == 3 {
        "3.0"@
    } else if channels == 4 {
        "quad"@
    } else if channels == 5 {
        "5.0"@
    } else if channels == 6 {
        "5.1"@
    } else if channels == 7 {
        "6.1"@
    } else {
        "7.1"@
    }
}

pub fn layout_name(channels: u32) -> (r: &'static str)
    ensures
        r@ == layout(channels as nat),
{
    if channels <= 1 {
        "mono"
    } else if channels == 2 {
        "stereo"
    } else if channels == 3 {
        "3.0"
    } else if channels == 4 {
        "quad"
    } else if channels == 5 {
        "5.0"
    } else if channels == 6 {
        "5.1"
    } else if channels == 7 {
        "6.1"
    } else {
        "7.1"
    }
}

/// The value that a table has under a key.
pub open spec fn entry(map: Map<Seq<char>, String>, key: Seq<char>) -> Option<Seq<char>> {
    if map.contains_key(key) {
        Some(map[key]@)
    } else {
        None
    }
}

/// The bitrate for a track with the given number of channels: the single one,
/// or the one of the track's layout, or the default one.
pub open spec fn bitrate_for(bitrate: Bitrate, channels: Option<u32>) -> Option<Seq<char>> {
    match bitrate {
        Bitrate::Single(s) => Some(s@),
        Bitrate::PerLayout(map) => match channels {
            Some(c) if map@.contains_key(layout(c as nat)) => entry(map@, layout(c as nat)),
            _ => entry(map@, "default"@),
        },
    }
}

impl Bitrate {
    pub fn resolve(&self, channels: Option<u32>) -> (r: Option<&str>)
        ensures
            opt_str(r) == bitrate_for(*self, channels),
    {
        match self {
            Bitrate::Single(s) => Some(s.as_str()),
            Bitrate::PerLayout(map) => {
                if let Some(c) = channels {
                    if let Some(s) = map.get(layout_name(c)) {
                        return Some(s.as_str());
                    }
                }
                match map.get("default") {
                    Some(s) => Some(s.as_str()),
                    None => None,
                }
            },
        }
    }
}

/// The languages that ISO 639-2 spells twice: the bibliographic code and the
/// terminological one.
pub open spec fn spelled_twice() -> Seq<(Seq<char>, Seq<char>)> {
    seq![
        ("alb"@, "sqi"@),
        ("arm"@, "hye"@),
        ("baq"@, "eus"@),
        ("bur"@, "mya"@),
        ("chi"@, "zho"@),
        ("cze"@, "ces"@),
        ("dut"@, "nld"@),
        ("fre"@, "fra"@),
        ("geo"@, "kat"@),
        ("ger"@, "deu"@),
        ("gre"@, "ell"@),
        ("ice"@, "isl"@),
        ("mac"@, "mkd"@),
        ("mao"@, "mri"@),
        ("may"@, "msa"@),
        ("per"@, "fas"@),
        ("rum"@, "ron"@),
        ("slo"@, "slk"@),
        ("tib"@, "bod"@),
        ("wel"@, "cym"@),
    ]
}

/// The code that stands beside `code` in a list of pairs.
pub open spec fn beside(pairs: Seq<(Seq<char>, Seq<char>)>, code: Seq<char>) -> Option<Seq<char>>
    decreases pairs.len(),
{
    if pairs.len() == 0 {
        None
    } else if pairs[0].0 == code {
        Some(pairs[0].1)
    } else if pairs[0].1 == code {
        Some(pairs[0].0)
    } else {
        beside(pairs.skip(1), code)
    }
}

/// The other code that ISO 639-2 has for a language that it spells twice.
pub open spec fn alias_of(code: Seq<char>) -> Option<Seq<char>> {
    beside(spelled_twice(), code)
}

/// The other spelling of a language code, where ISO 639-2 has two.
pub fn iso639_alias(code: &str) -> (r: Option<&'static str>)
    ensures
        opt_str(r) == alias_of(code@),
{
    let pairs: [(&'static str, &'static str); 20] = [
        ("alb", "sqi"),
        ("arm", "hye"),
        ("baq", "eus"),
        ("bur", "mya"),
        ("chi", "zho"),
        ("cze", "ces"),
        ("dut", "nld"),
        ("fre", "fra"),
        ("geo", "kat"),
        ("ger", "deu"),
        ("gre", "ell"),
        ("ice", "isl"),
        ("mac", "mkd"),
        ("mao", "mri"),
        ("may", "msa"),
        ("per", "fas"),
        ("rum", "ron"),
        ("slo", "slk"),
        ("tib", "bod"),
        ("wel", "cym"),
    ];
    let ghost table = spelled_twice();
    assert(forall|k: int|
        0 <= k < 20 ==> (#[trigger] table[k]).0 == pairs@[k].0@ && table[k].1 == pairs@[k].1@);
    assert(table.skip(0) =~= table);
    let mut i: usize = 0;
    while i < 20
        invariant
            i <= 20,
            table == spelled_twice(),
            table.len() == 20,
            forall|k: int|
                0 <= k < 20 ==> (#[trigger] table[k]).0 == pairs@[k].0@ && table[k].1
                    == pairs@[k].1@,
            alias_of(code@) == beside(table.skip(i as int), code@),
        decreases 20 - i,
    {
        let (a, b) = pairs[i];
        assert(table[i as int].0 == a@ && table[i as int].1 == b@);
        assert(table.skip(i as int)[0] == table[i as int]);
        assert(table.skip(i as int).skip(1) =~= table.skip(i + 1));
        if str_eq(code, a) {
            return Some(b);
        }
        if str_eq(code, b) {
            return Some(a);
        }
        i += 1;
    }
    None
}

/// A code of three letters as a number.
spec fn code_number(code: Seq<char>) -> int {
    (code[0] as int) * 65536 + (code[1] as int) * 256 + (code[2] as int)
}

/// The numbers of the codes in the list, the bibliographic ones first.
spec fn code_numbers() -> Seq<int> {
    seq![
        6384738, 6386285, 6447473, 6452594, 6514793,
        6519397, 6583668, 6713957, 6776175, 6776178,
        6779493, 6906725, 7168355, 7168367, 7168377,
        7366002, 7501165, 7564399, 7629154, 7824748,
        7565673, 6846821, 6649203, 7174497, 8022127,
        6514035, 7236708, 6713953, 7037300, 6579573,
        6646892, 6910828, 7170916, 7172713, 7172961,
        6709619, 7499630, 7564395, 6451044, 6519149,
    ]
}

proof fn lemma_code_numbers()
    ensures
        forall|i: int|
            0 <= i < 20 ==> code_number((#[trigger] spelled_twice()[i]).0) == code_numbers()[i],
        forall|i: int|
            0 <= i < 20 ==> code_number((#[trigger] spelled_twice()[i]).1) == code_numbers()[i + 20],
        forall|i: int|
            0 <= i < 20 ==> (#[trigger] spelled_twice()[i]).0.len() == 3
                && spelled_twice()[i].1.len() == 3,
{
    reveal_strlit("alb");
    reveal_strlit("sqi");
    reveal_strlit("arm");
    reveal_strlit("hye");
    reveal_strlit("baq");
    reveal_strlit("eus");
    reveal_strlit("bur");
    reveal_strlit("mya");
    reveal_strlit("chi");
    reveal_strlit("zho");
    reveal_strlit("cze");
    reveal_strlit("ces");
    reveal_strlit("dut");
    reveal_strlit("nld");
    reveal_strlit("fre");
    reveal_strlit("fra");
    reveal_strlit("geo");
    reveal_strlit("kat");
    reveal_strlit("ger");
    reveal_strlit("deu");
    reveal_strlit("gre");
    reveal_strlit("ell");
    reveal_strlit("ice");
    reveal_strlit("isl");
    reveal_strlit("mac");
    reveal_strlit("mkd");
    reveal_strlit("mao");
    reveal_strlit("mri");
    reveal_strlit("may");
    reveal_strlit("msa");
    reveal_strlit("per");
    reveal_strlit("fas");
    reveal_strlit("rum");
    reveal_strlit("ron");
    reveal_strlit("slo");
    reveal_strlit("slk");
    reveal_strlit("tib");
    reveal_strlit("bod");
    reveal_strlit("wel");
    reveal_strlit("cym");
}

/// No code occurs twice in the list.
proof fn lemma_codes_differ()
    ensures
        forall|i: int, j: int|
            #![trigger spelled_twice()[i], spelled_twice()[j]]
            0 <= i < 20 && 0 <= j < 20 ==> spelled_twice()[i].0 != spelled_twice()[j].1 && (i != j
                ==> spelled_twice()[i].0 != spelled_twice()[j].0 && spelled_twice()[i].1
                != spelled_twice()[j].1),
{
    lemma_code_numbers();
    let n = code_numbers();
    assert(forall|i: int, j: int| 0 <= i < j < 40 ==> n[i] != n[j]);
}

proof fn lemma_beside(pairs: Seq<(Seq<char>, Seq<char>)>, code: Seq<char>)
    requires
        forall|i: int, j: int|
            #![trigger pairs[i], pairs[j]]
            0 <= i < pairs.len() && 0 <= j < pairs.len() ==> pairs[i].0 != pairs[j].1 && (i != j
                ==> pairs[i].0 != pairs[j].0 && pairs[i].1 != pairs[j].1),
    ensures
        match beside(pairs, code) {
            Some(other) => other != code && beside(pairs, other) == Some(code) && (exists|i: int|
                0 <= i < pairs.len() && (#[trigger] pairs[i] == (code, other) || pairs[i] == (
                    other,
                    code,
                ))),
            None => true,
        },
    decreases pairs.len(),
{
    if pairs.len() > 0 {
        let rest = pairs.skip(1);
        assert forall|i: int, j: int|
            #![trigger rest[i], rest[j]]
            0 <= i < rest.len() && 0 <= j < rest.len() implies rest[i].0 != rest[j].1 && (i != j
            ==> rest[i].0 != rest[j].0 && rest[i].1 != rest[j].1) by {
            assert(rest[i] == pairs[i + 1] && rest[j] == pairs[j + 1]);
        }
        lemma_beside(rest, code);
        let first = pairs[0];
        if first.0 == code {
            assert(pairs[0] == (code, first.1));
        } else if first.1 == code {
            assert(pairs[0] == (first.0, code));
        } else if let Some(other) = beside(rest, code) {
            let i = choose|i: int|
                0 <= i < rest.len() && (#[trigger] rest[i] == (code, other) || rest[i] == (
                    other,
                    code,
                ));
            assert(rest[i] == pairs[i + 1]);
        }
    }
}

/// The two spellings of a language are each other's alias, and never the same.
pub proof fn aliases_pair_up(code: Seq<char>)
    ensures
        alias_of(code) matches Some(other) ==> other != code && alias_of(other) == Some(code),
{
    lemma_codes_differ();
    lemma_beside(spelled_twice(), code);
}

/// The part of a language tag in front of its first subtag.
pub open spec fn before_subtag(s: Seq<char>) -> Seq<char>
    decreases s.len(),
{
    if s.len() == 0 || s[0] == '-' || s[0] == '_' {
        Seq::empty()
    } else {
        seq![s[0]] + before_subtag(s.skip(1))
    }
}

/// The language code of a tag: in lower case, without subtags and without
/// white space around it.
pub open spec fn language_code(tag: Seq<char>) -> Seq<char> {
    before_subtag(ascii_lower(trimmed(tag)))
}

/// An entry of a whitelist stands for a tag: their codes are the same, or the
/// two spellings of one language.
pub open spec fn same_language(entry: Seq<char>, tag: Seq<char>) -> bool {
    let code = language_code(entry);
    &&& code.len() > 0
    &&& code == language_code(tag) || alias_of(code) == Some(language_code(tag))
}

fn code_of(tag: &str) -> (r: String)
    ensures
        r@ == language_code(tag@),
{
    let lower = to_ascii_lower(trim(tag).as_str());
    let chars = to_chars(lower.as_str());
    let mut r = String::new();
    let mut i: usize = 0;
    assert(chars@.skip(0) =~= chars@);
    while i < chars.len() && chars[i] != '-' && chars[i] != '_'
        invariant
            i <= chars@.len(),
            r@ + before_subtag(chars@.skip(i as int)) == before_subtag(chars@),
        decreases chars@.len() - i,
    {
        assert(chars@.skip(i as int)[0] == chars@[i as int]);
        assert(chars@.skip(i as int).skip(1) =~= chars@.skip(i + 1));
        assert(r@.push(chars@[i as int]) + before_subtag(chars@.skip(i + 1)) =~= r@ + (
        seq![chars@[i as int]] + before_subtag(chars@.skip(i + 1))));
        r.push(chars[i]);
        i += 1;
    }
    assert(i < chars@.len() ==> chars@.skip(i as int)[0] == chars@[i as int]);
    assert(r@ =~= before_subtag(chars@));
    r
}

/// True when a whitelist entry stands for the language of a track. Case,
/// subtags and the two spellings of a language make no difference; codes of
/// two and of three letters do not mix.
pub fn language_matches(entry: &str, tag: &str) -> (r: bool)
    ensures
        r == same_language(entry@, tag@),
{
    let entry = code_of(entry);
    let tag = code_of(tag);
    if to_chars(entry.as_str()).len() == 0 {
        return false;
    }
    if str_eq(entry.as_str(), tag.as_str()) {
        return true;
    }
    match iso639_alias(entry.as_str()) {
        Some(other) => str_eq(other, tag.as_str()),
        None => false,
    }
}

/// A track has no language: it is untagged, or its tag says that the language
/// is undetermined.
pub open spec fn untagged(tag: Option<Seq<char>>) -> bool {
    match tag {
        None => true,
        Some(t) => trimmed(t).len() == 0 || ascii_lower(trimmed(t)) == "und"@,
    }
}

/// A whitelist keeps a track: the list is empty, the track has no language, or
/// an entry stands for it.
pub open spec fn language_kept(whitelist: Seq<Seq<char>>, tag: Option<Seq<char>>) -> bool {
    ||| whitelist.len() == 0
    ||| untagged(tag)
    ||| exists|i: int| 0 <= i < whitelist.len() && same_language(#[trigger] whitelist[i], tag.unwrap())
}

pub fn language_selected(whitelist: &[String], tag: Option<&str>) -> (r: bool)
    ensures
        r == language_kept(views(whitelist@), opt_str(tag)),
{
    if whitelist.len() == 0 {
        return true;
    }
    let lang = match tag {
        None => {
            return true;
        },
        Some(lang) => lang,
    };
    let bare = trim(lang);
    if to_chars(bare.as_str()).len() == 0 || str_eq(to_ascii_lower(bare.as_str()).as_str(), "und") {
        return true;
    }
    let mut i: usize = 0;
    while i < whitelist.len()
        invariant
            i <= whitelist@.len(),
            opt_str(tag) == Some(lang@),
            forall|k: int|
                0 <= k < i ==> !same_language(#[trigger] views(whitelist@)[k], lang@),
        decreases whitelist@.len() - i,
    {
        assert(views(whitelist@)[i as int] == whitelist@[i as int]@);
        if language_matches(whitelist[i].as_str(), lang) {
            return true;
        }
        i += 1;
    }
    false
}

/// Whether two tags name one language does not depend on which of them stands
/// in the whitelist.
pub proof fn language_match_is_symmetric(a: Seq<char>, b: Seq<char>)
    requires
        same_language(a, b),
    ensures
        same_language(b, a),
{
    aliases_pair_up(language_code(a));
    code_sets_do_not_mix(a, b);
}

/// Codes of two letters and codes of three letters do not mix: tags that name one
/// language have codes of the same length.
pub proof fn code_sets_do_not_mix(a: Seq<char>, b: Seq<char>)
    requires
        same_language(a, b),
    ensures
        language_code(a).len() == language_code(b).len(),
{
    lemma_codes_differ();
    lemma_code_numbers();
    lemma_beside(spelled_twice(), language_code(a));
}

/// Subtags make no difference: a tag names the same language with a region or a
/// script behind it. White space is part of neither.
pub proof fn subtags_are_ignored(tag: Seq<char>, sep: char, rest: Seq<char>)
    requires
        sep == '-' || sep == '_',
        trimmed(tag) == tag,
    ensures
        language_code(tag + seq![sep] + rest) == language_code(tag),
{
    let whole = tag + seq![sep] + rest;
    lemma_trimmed_front(tag);
    assert(whole[0] == (if tag.len() > 0 {
        tag[0]
    } else {
        sep
    }));
    assert(trim_start(whole) == whole);
    lemma_trim_behind(tag, sep, rest);
    let kept = trim_end(rest);
    assert(ascii_lower(tag + seq![sep] + kept) =~= ascii_lower(tag) + seq![sep] + ascii_lower(
        kept,
    ));
    lemma_before_separator(ascii_lower(tag), sep, ascii_lower(kept));
}

/// A text without white space around it does not begin with any.
proof fn lemma_trimmed_front(s: Seq<char>)
    requires
        trimmed(s) == s,
    ensures
        s.len() > 0 ==> !is_space(s[0]),
{
    if s.len() > 0 && is_space(s[0]) {
        lemma_trim_start(s.skip(1));
        lemma_trim_end_shorter(trim_start(s));
    }
}

proof fn lemma_trim_end_shorter(s: Seq<char>)
    ensures
        trim_end(s).len() <= s.len(),
    decreases s.len(),
{
    if s.len() > 0 && is_space(s.last()) {
        lemma_trim_end_shorter(s.drop_last());
    }
}

/// White space behind a text that ends in none is all that is trimmed there.
proof fn lemma_trim_behind(tag: Seq<char>, sep: char, rest: Seq<char>)
    requires
        !is_space(sep),
    ensures
        trim_end(tag + seq![sep] + rest) == tag + seq![sep] + trim_end(rest),
    decreases rest.len(),
{
    let whole = tag + seq![sep] + rest;
    if rest.len() == 0 {
        assert(whole.last() == sep);
        assert(tag + seq![sep] + trim_end(rest) =~= whole);
    } else {
        assert(whole.last() == rest.last());
        assert(whole.drop_last() =~= tag + seq![sep] + rest.drop_last());
        if is_space(rest.last()) {
            lemma_trim_behind(tag, sep, rest.drop_last());
        }
    }
}

proof fn lemma_before_separator(s: Seq<char>, sep: char, rest: Seq<char>)
    requires
        sep == '-' || sep == '_',
    ensures
        before_subtag(s + seq![sep] + rest) == before_subtag(s),
    decreases s.len(),
{
    let whole = s + seq![sep] + rest;
    if s.len() == 0 {
        assert(whole[0] == sep);
    } else {
        assert(whole[0] == s[0]);
        assert(whole.skip(1) =~= s.skip(1) + seq![sep] + rest);
        lemma_before_separator(s.skip(1), sep, rest);
    }
}

proof fn lemma_lower_before_subtag(s: Seq<char>)
    ensures
        before_subtag(ascii_lower(s)) == ascii_lower(before_subtag(s)),
        ascii_lower(ascii_lower(s)) == ascii_lower(s),
    decreases s.len(),
{
    assert(ascii_lower(ascii_lower(s)) =~= ascii_lower(s));
    if s.len() > 0 {
        lemma_lower_before_subtag(s.skip(1));
        assert(ascii_lower(s).skip(1) =~= ascii_lower(s.skip(1)));
    }
    assert(before_subtag(ascii_lower(s)) =~= ascii_lower(before_subtag(s)));
}

proof fn lemma_lower_trim_start(s: Seq<char>)
    ensures
        trim_start(ascii_lower(s)) == ascii_lower(trim_start(s)),
    decreases s.len(),
{
    if s.len() > 0 {
        lemma_lower_trim_start(s.skip(1));
        assert(ascii_lower(s).skip(1) =~= ascii_lower(s.skip(1)));
    }
}

proof fn lemma_lower_trim_end(s: Seq<char>)
    ensures
        trim_end(ascii_lower(s)) == ascii_lower(trim_end(s)),
    decreases s.len(),
{
    if s.len() > 0 {
        lemma_lower_trim_end(s.drop_last());
        assert(ascii_lower(s).drop_last() =~= ascii_lower(s.drop_last()));
    }
}

/// The case in which a tag is written makes no difference to the language it
/// names.
pub proof fn language_code_ignores_case(tag: Seq<char>)
    ensures
        language_code(ascii_lower(tag)) == language_code(tag),
{
    lemma_lower_trim_start(tag);
    lemma_lower_trim_end(tag);
    lemma_lower_trim_start(trim_end(tag));
    lemma_lower_trim_end(trim_start(tag));
    lemma_lower_before_subtag(trimmed(tag));
}

/// A whitelist drops no track without a language, and an empty whitelist drops
/// none at all.
pub proof fn untagged_tracks_are_kept(whitelist: Seq<Seq<char>>, tag: Option<Seq<char>>)
    requires
        whitelist.len() == 0 || untagged(tag),
    ensures
        language_kept(whitelist, tag),
{
}

/// The codecs that lose nothing: a bitrate has no meaning for them.
pub open spec fn codec_is_lossless(codec: Seq<char>) -> bool {
    ||| codec == "flac"@
    ||| codec == "alac"@
    ||| codec == "wavpack"@
    ||| codec == "tta"@
    ||| has_prefix(codec, "pcm_"@)
}

pub fn output_is_lossless(codec: &str) -> (r: bool)
    ensures
        r == codec_is_lossless(codec@),
{
    str_eq(codec, "flac") || str_eq(codec, "alac") || str_eq(codec, "wavpack") || str_eq(
        codec,
        "tta",
    ) || starts_with(codec, "pcm_")
}

/// How a value of an option table is written on a command line.
pub open spec fn arg_of(v: ParamValue) -> Seq<char> {
    match v {
        ParamValue::Str(s) => s@,
        ParamValue::Int(i) => dec_int(i as int),
        ParamValue::Float { value: _, text } => text@,
        ParamValue::Bool(b) => if b {
            "1"@
        } else {
            "0"@
        },
        ParamValue::Other(s) => s@,
    }
}

pub fn toml_value_to_arg(v: &ParamValue) -> (r: String)
    ensures
        r@ == arg_of(*v),
{
    match v {
        ParamValue::Str(s) => s.clone(),
        ParamValue::Int(i) => dec_i64(*i),
        ParamValue::Float { value: _, text } => text.clone(),
        ParamValue::Bool(b) => if *b {
            "1".to_owned()
        } else {
            "0".to_owned()
        },
        ParamValue::Other(s) => s.clone(),
    }
}

/// The value that a reference stands for.
pub open spec fn behind<T>(v: Option<&T>) -> Option<T> {
    match v {
        Some(v) => Some(*v),
        None => None,
    }
}

/// The override that applies to a track: the rule for its codec, or else, for a
/// lossless source, the one for lossless sources.
pub open spec fn override_for(
    audio: AudioConfig,
    codec: Seq<char>,
    lossless: bool,
) -> Option<AudioProfile> {
    if audio.codec_rules@.contains_key(codec) {
        Some(audio.codec_rules@[codec])
    } else if lossless {
        audio.lossless
    } else {
        None
    }
}

pub open spec fn mode_under(audio: AudioConfig, over: Option<AudioProfile>) -> AudioMode {
    match over {
        Some(AudioProfile { mode: Some(mode), .. }) => mode,
        _ => audio.mode,
    }
}

pub open spec fn codec_under(audio: AudioConfig, over: Option<AudioProfile>) -> Option<Seq<char>> {
    match over {
        Some(AudioProfile { codec: Some(codec), .. }) => Some(codec@),
        _ => opt_view(audio.codec),
    }
}

pub open spec fn bitrate_under(audio: AudioConfig, over: Option<AudioProfile>) -> Option<Bitrate> {
    match over {
        Some(AudioProfile { bitrate: Some(bitrate), .. }) => Some(bitrate),
        _ => audio.bitrate,
    }
}

/// The options under an override; an empty table counts as unset.
pub open spec fn options_under(
    audio: AudioConfig,
    over: Option<AudioProfile>,
) -> StrMap<ParamValue> {
    match over {
        Some(over) if over.options.keys().len() > 0 => over.options,
        _ => audio.options,
    }
}

/// The settings `r` are those of `audio` with the override `over` applied: what
/// the override leaves unset is inherited.
pub open spec fn settings_are(
    r: ResolvedAudio,
    audio: AudioConfig,
    over: Option<AudioProfile>,
) -> bool {
    &&& r.mode == mode_under(audio, over)
    &&& opt_str(r.codec) == codec_under(audio, over)
    &&& behind(r.bitrate) == bitrate_under(audio, over)
    &&& *r.options == options_under(audio, over)
}

impl AudioConfig {
    /// The settings for a track, by the codec of its source and whether that
    /// is lossless.
    pub fn resolve(&self, codec_name: &str, is_lossless: bool) -> (r: ResolvedAudio<'_>)
        ensures
            settings_are(r, *self, override_for(*self, codec_name@, is_lossless)),
    {
        if let Some(rule) = self.codec_rules.get(codec_name) {
            return self.overlay(rule);
        }
        if is_lossless {
            if let Some(over) = &self.lossless {
                return self.overlay(over);
            }
        }
        ResolvedAudio {
            mode: self.mode,
            codec: as_opt_str(&self.codec),
            bitrate: self.bitrate.as_ref(),
            options: &self.options,
        }
    }

    /// The settings under an override.
    pub fn overlay<'a>(&'a self, over: &'a AudioProfile) -> (r: ResolvedAudio<'a>)
        ensures
            settings_are(r, *self, Some(*over)),
    {
        ResolvedAudio {
            mode: match over.mode {
                Some(mode) => mode,
                None => self.mode,
            },
            codec: match &over.codec {
                Some(codec) => Some(codec.as_str()),
                None => as_opt_str(&self.codec),
            },
            bitrate: match &over.bitrate {
                Some(bitrate) => Some(bitrate),
                None => self.bitrate.as_ref(),
            },
            options: if over.options.is_empty() {
                &self.options
            } else {
                &over.options
            },
        }
    }
}

/// Whichever override applies, the settings of the profile stand where it sets
/// nothing, but a table of options takes the place of the inherited one as a whole;
/// and a rule for the codec leaves no room for the one for lossless sources.
pub proof fn overrides_inherit(
    audio: AudioConfig,
    codec: Seq<char>,
    lossless: bool,
    r: ResolvedAudio,
)
    requires
        settings_are(r, audio, override_for(audio, codec, lossless)),
    ensures
        match override_for(audio, codec, lossless) {
            Some(over) => {
                &&& over.mode is None ==> r.mode == audio.mode
                &&& over.codec is None ==> opt_str(r.codec) == opt_view(audio.codec)
                &&& over.bitrate is None ==> behind(r.bitrate) == audio.bitrate
                &&& *r.options == (if over.options.keys().len() == 0 {
                    audio.options
                } else {
                    over.options
                })
            },
            None => {
                &&& r.mode == audio.mode
                &&& opt_str(r.codec) == opt_view(audio.codec)
                &&& behind(r.bitrate) == audio.bitrate
                &&& *r.options == audio.options
            },
        },
        audio.codec_rules@.contains_key(codec) ==> override_for(audio, codec, lossless) == Some(
            audio.codec_rules@[codec],
        ),
{
}

impl Default for VideoMode {
    fn default() -> (r: Self)
        ensures
            r == VideoMode::Encode,
    {
        VideoMode::Encode
    }
}

impl Default for SubtitleMode {
    fn default() -> (r: Self)
        ensures
            r == SubtitleMode::Copy,
    {
        SubtitleMode::Copy
    }
}

impl Default for AudioMode {
    fn default() -> (r: Self)
        ensures
            r == AudioMode::Copy,
    {
        AudioMode::Copy
    }
}

impl Default for SceneDetectionSpeedConfig {
    fn default() -> (r: Self)
        ensures
            r == SceneDetectionSpeedConfig::Standard,
    {
        SceneDetectionSpeedConfig::Standard
    }
}

impl Default for AvxsConfig {
    fn default() -> (r: Self)
        ensures
            r == (AvxsConfig {
                video: VideoMode::Encode,
                hdr: false,
                crop: false,
                keyint: false,
                scale: None,
                bit_depth: None,
                keep_temp: false,
            }),
    {
        AvxsConfig {
            video: VideoMode::Encode,
            hdr: false,
            crop: false,
            keyint: false,
            scale: None,
            bit_depth: None,
            keep_temp: false,
        }
    }
}

impl Default for SubtitleConfig {
    fn default() -> (r: Self)
        ensures
            r.mode == SubtitleMode::Copy,
            r.language_whitelist@.len() == 0,
    {
        SubtitleConfig { mode: SubtitleMode::Copy, language_whitelist: Vec::new() }
    }
}

impl Default for AudioProfile {
    fn default() -> (r: Self)
        ensures
            r.mode is None,
            r.codec is None,
            r.bitrate is None,
            r.options.keys().len() == 0,
    {
        AudioProfile { mode: None, codec: None, bitrate: None, options: StrMap::new() }
    }
}

impl Default for AudioConfig {
    fn default() -> (r: Self)
        ensures
            r.mode == AudioMode::Copy,
            r.codec is None,
            r.bitrate is None,
            r.options.keys().len() == 0,
            r.language_whitelist@.len() == 0,
            r.lossless is None,
            r.codec_rules.keys().len() == 0,
    {
        AudioConfig {
            mode: AudioMode::Copy,
            codec: None,
            bitrate: None,
            options: StrMap::new(),
            language_whitelist: Vec::new(),
            lossless: None,
            codec_rules: StrMap::new(),
        }
    }
}

impl Default for SceneDetectionConfig {
    fn default() -> (r: Self)
        ensures
            r == (SceneDetectionConfig {
                min_scene_len: 24,
                extra_split_sec: 10,
                extra_split: 0,
                speed: SceneDetectionSpeedConfig::Standard,
                downscale_height: None,
            }),
    {
        SceneDetectionConfig {
            min_scene_len: 24,
            extra_split_sec: 10,
            extra_split: 0,
            speed: SceneDetectionSpeedConfig::Standard,
            downscale_height: None,
        }
    }
}

impl Default for TargetQualityConfig {
    fn default() -> (r: Self)
        ensures
            r == (TargetQualityConfig {
                jod: Real { bits: ZERO_BITS },
                min_crf: 1,
                max_crf: 70,
                min_probes: 2,
                max_probes: 7,
                tolerance: Real { bits: HALF_BITS },
                probe_preset: 13,
                max_encoded_percent: Real { bits: NINETY_BITS },
            }),
    {
        TargetQualityConfig {
            jod: Real { bits: ZERO_BITS },
            min_crf: 1,
            max_crf: 70,
            min_probes: 2,
            max_probes: 7,
            tolerance: Real { bits: HALF_BITS },
            probe_preset: 13,
            max_encoded_percent: Real { bits: NINETY_BITS },
        }
    }
}

impl Default for Config {
    fn default() -> (r: Self)
        ensures
            r.encoder is None,
            r.encoder_params.keys().len() == 0,
            r.avxs.video == VideoMode::Encode,
            !r.avxs.hdr && !r.avxs.crop && !r.avxs.keyint && !r.avxs.keep_temp,
            r.avxs.scale is None && r.avxs.bit_depth is None,
            r.audio.mode == AudioMode::Copy,
            r.audio.codec is None && r.audio.bitrate is None && r.audio.lossless is None,
            r.audio.options.keys().len() == 0 && r.audio.codec_rules.keys().len() == 0,
            r.audio.language_whitelist@.len() == 0,
            r.subtitles.mode == SubtitleMode::Copy,
            r.subtitles.language_whitelist@.len() == 0,
            r.scene_detection == (SceneDetectionConfig {
                min_scene_len: 24,
                extra_split_sec: 10,
                extra_split: 0,
                speed: SceneDetectionSpeedConfig::Standard,
                downscale_height: None,
            }),
            r.target_quality is None,
    {
        Config {
            encoder: None,
            encoder_params: StrMap::new(),
            avxs: AvxsConfig::default(),
            audio: AudioConfig::default(),
            subtitles: SubtitleConfig::default(),
            scene_detection: SceneDetectionConfig::default(),
            target_quality: None,
        }
    }
}

/// The number nearest to `num / den`; halves are rounded up.
pub open spec fn nearest(num: nat, den: nat) -> nat {
    (2 * num + den) / (2 * den)
}

/// The greatest number of frames in a chunk under the given settings and at
/// the frame rate `fps_num / fps_den`.
pub open spec fn max_chunk_frames(
    scenes: SceneDetectionConfig,
    fps_num: nat,
    fps_den: nat,
) -> Option<nat> {
    if scenes.extra_split > 0 {
        Some(scenes.extra_split as nat)
    } else {
        let frames = nearest(scenes.extra_split_sec as nat * fps_num, fps_den);
        if frames > 0 {
            Some(frames)
        } else {
            None
        }
    }
}

impl SceneDetectionConfig {
    /// The greatest number of frames in a chunk; none when chunks are not
    /// split. A number beyond the range of `usize` becomes its greatest value.
    pub fn effective_extra_split_frames(&self, fps_num: u32, fps_den: u32) -> (r: Option<usize>)
        requires
            fps_den > 0,
        ensures
            match max_chunk_frames(*self, fps_num as nat, fps_den as nat) {
                Some(frames) => r == Some(
                    if frames > usize::MAX {
                        usize::MAX
                    } else {
                        frames as usize
                    },
                ),
                None => r is None,
            },
            r matches Some(max) ==> max > 0,
    {
        if self.extra_split > 0 {
            return Some(self.extra_split as usize);
        }
        let frames: u128 = nearest_u32(self.extra_split_sec, fps_num, fps_den);
        if frames == 0 {
            None
        } else if frames > usize::MAX as u128 {
            Some(usize::MAX)
        } else {
            Some(frames as usize)
        }
    }
}

/// `factor * num / den`, rounded to the nearest integer.
pub fn nearest_u32(factor: u32, num: u32, den: u32) -> (r: u128)
    requires
        den > 0,
    ensures
        r == nearest(factor as nat * num as nat, den as nat),
{
    proof {
        assert(factor as nat * num as nat <= 0xffff_ffff * 0xffff_ffff) by (nonlinear_arith)
            requires
                factor <= 0xffff_ffff,
                num <= 0xffff_ffff,
        ;
    }
    (2 * (factor as u128 * num as u128) + den as u128) / (2 * den as u128)
}

impl Config {
    /// The encoder options of the profile in the order of their names, each
    /// followed by its value.
    pub open spec fn args(self) -> Seq<Seq<char>> {
        Seq::new(
            2 * self.encoder_params.keys().len(),
            |i: int|
                if i % 2 == 0 {
                    "--"@ + self.encoder_params.keys()[i / 2]
                } else {
                    arg_of(self.encoder_params.values()[i / 2])
                },
        )
    }

    pub fn encoder_args(&self) -> (r: Vec<String>)
        ensures
            views(r@) == self.args(),
            self.encoder_params.well_formed(),
    {
        let mut args: Vec<String> = Vec::new();
        let count: usize = self.encoder_params.len();
        let mut i: usize = 0;
        while i < count
            invariant
                i <= count,
                count == self.encoder_params.keys().len(),
                args@.len() == 2 * i,
                forall|k: int| 0 <= k < 2 * i ==> #[trigger] args@[k]@ == self.args()[k],
            decreases count - i,
        {
            let mut flag = "--".to_owned();
            flag.append(self.encoder_params.key_at(i).as_str());
            args.push(flag);
            args.push(toml_value_to_arg(self.encoder_params.value_at(i)));
            i += 1;
        }
        assert(views(args@) =~= self.args());
        args
    }
}

proof fn lemma_beside_member(pairs: Seq<(Seq<char>, Seq<char>)>, i: int)
    requires
        0 <= i < pairs.len(),
        forall|i: int, j: int|
            #![trigger pairs[i], pairs[j]]
            0 <= i < pairs.len() && 0 <= j < pairs.len() ==> pairs[i].0 != pairs[j].1 && (i != j
                ==> pairs[i].0 != pairs[j].0 && pairs[i].1 != pairs[j].1),
    ensures
        beside(pairs, pairs[i].0) == Some(pairs[i].1),
        beside(pairs, pairs[i].1) == Some(pairs[i].0),
    decreases pairs.len(),
{
    if i > 0 {
        assert(pairs[0].0 != pairs[i].0);
        assert(pairs[0].1 != pairs[i].1);
        assert(pairs[0].0 != pairs[i].1);
        assert(pairs[i].0 != pairs[0].1);
        let rest = pairs.skip(1);
        assert forall|i: int, j: int|
            #![trigger rest[i], rest[j]]
            0 <= i < rest.len() && 0 <= j < rest.len() implies rest[i].0 != rest[j].1 && (i != j
            ==> rest[i].0 != rest[j].0 && rest[i].1 != rest[j].1) by {
            assert(rest[i] == pairs[i + 1]);
            assert(rest[j] == pairs[j + 1]);
        }
        lemma_beside_member(rest, i - 1);
        assert(rest[i - 1] == pairs[i]);
    }
}

/// The two codes of ISO 639-2 for each language that it spells twice are known, in
/// both directions, and no other code has an alias.
pub proof fn both_spellings_are_known(code: Seq<char>)
    ensures
        alias_of("alb"@) == Some("sqi"@) && alias_of("sqi"@) == Some("alb"@),
        alias_of("arm"@) == Some("hye"@) && alias_of("hye"@) == Some("arm"@),
        alias_of("baq"@) == Some("eus"@) && alias_of("eus"@) == Some("baq"@),
        alias_of("bur"@) == Some("mya"@) && alias_of("mya"@) == Some("bur"@),
        alias_of("chi"@) == Some("zho"@) && alias_of("zho"@) == Some("chi"@),
        alias_of("cze"@) == Some("ces"@) && alias_of("ces"@) == Some("cze"@),
        alias_of("dut"@) == Some("nld"@) && alias_of("nld"@) == Some("dut"@),
        alias_of("fre"@) == Some("fra"@) && alias_of("fra"@) == Some("fre"@),
        alias_of("geo"@) == Some("kat"@) && alias_of("kat"@) == Some("geo"@),
        alias_of("ger"@) == Some("deu"@) && alias_of("deu"@) == Some("ger"@),
        alias_of("gre"@) == Some("ell"@) && alias_of("ell"@) == Some("gre"@),
        alias_of("ice"@) == Some("isl"@) && alias_of("isl"@) == Some("ice"@),
        alias_of("mac"@) == Some("mkd"@) && alias_of("mkd"@) == Some("mac"@),
        alias_of("mao"@) == Some("mri"@) && alias_of("mri"@) == Some("mao"@),
        alias_of("may"@) == Some("msa"@) && alias_of("msa"@) == Some("may"@),
        alias_of("per"@) == Some("fas"@) && alias_of("fas"@) == Some("per"@),
        alias_of("rum"@) == Some("ron"@) && alias_of("ron"@) == Some("rum"@),
        alias_of("slo"@) == Some("slk"@) && alias_of("slk"@) == Some("slo"@),
        alias_of("tib"@) == Some("bod"@) && alias_of("bod"@) == Some("tib"@),
        alias_of("wel"@) == Some("cym"@) && alias_of("cym"@) == Some("wel"@),
        alias_of(code) is Some ==> code.len() == 3 && alias_of(code).unwrap().len() == 3,
{
    lemma_codes_differ();
    lemma_code_numbers();
    let list = spelled_twice();
    lemma_beside_member(list, 0);
    lemma_beside_member(list, 1);
    lemma_beside_member(list, 2);
    lemma_beside_member(list, 3);
    lemma_beside_member(list, 4);
    lemma_beside_member(list, 5);
    lemma_beside_member(list, 6);
    lemma_beside_member(list, 7);
    lemma_beside_member(list, 8);
    lemma_beside_member(list, 9);
    lemma_beside_member(list, 10);
    lemma_beside_member(list, 11);
    lemma_beside_member(list, 12);
    lemma_beside_member(list, 13);
    lemma_beside_member(list, 14);
    lemma_beside_member(list, 15);
    lemma_beside_member(list, 16);
    lemma_beside_member(list, 17);
    lemma_beside_member(list, 18);
    lemma_beside_member(list, 19);
    lemma_beside(list, code);
}

/// Each number of channels has its own layout, but none and one share a layout, and so
/// do all from eight on.
pub proof fn layouts_name_their_channels(channels: nat)
    ensures
        layout(channels) == "mono"@ <==> channels <= 1,
        layout(channels) == "stereo"@ <==> channels == 2,
        layout(channels) == "3.0"@ <==> channels == 3,
        layout(channels) == "quad"@ <==> channels == 4,
        layout(channels) == "5.0"@ <==> channels == 5,
        layout(channels) == "5.1"@ <==> channels == 6,
        layout(channels) == "6.1"@ <==> channels == 7,
        layout(channels) == "7.1"@ <==> channels >= 8,
        layout(channels) != "default"@,
{
    reveal_strlit("mono");
    reveal_strlit("stereo");
    reveal_strlit("3.0");
    reveal_strlit("quad");
    reveal_strlit("5.0");
    reveal_strlit("5.1");
    reveal_strlit("6.1");
    reveal_strlit("7.1");
    reveal_strlit("default");
    assert("mono"@[0] == 'm' && "stereo"@[0] == 's' && "quad"@[0] == 'q' && "default"@[0] == 'd');
    assert("3.0"@[0] == '3' && "5.0"@[0] == '5' && "5.0"@[2] == '0');
    assert("5.1"@[0] == '5' && "5.1"@[2] == '1' && "6.1"@[0] == '6' && "7.1"@[0] == '7');
}

/// A single bitrate is for every track. Of a table, the entry of the track's layout
/// counts, and the default one only where there is none or the number of channels is
/// not known.
pub proof fn the_entry_of_the_layout_counts(map: StrMap<String>, channels: u32)
    ensures
        ({
            let table = Bitrate::PerLayout(map);
            &&& map@.contains_key(layout(channels as nat)) ==> bitrate_for(table, Some(channels))
                == Some(map@[layout(channels as nat)]@)
            &&& !map@.contains_key(layout(channels as nat)) ==> bitrate_for(table, Some(channels))
                == bitrate_for(table, None)
            &&& map@.contains_key("default"@) ==> bitrate_for(table, None) == Some(
                map@["default"@]@,
            )
            &&& !map@.contains_key("default"@) ==> bitrate_for(table, None) is None
        }),
        forall|s: String, c: Option<u32>| #[trigger]
            bitrate_for(Bitrate::Single(s), c) == Some(s@),
{
}

proof fn lemma_no_subtag(s: Seq<char>)
    requires
        forall|i: int| 0 <= i < s.len() ==> #[trigger] s[i] != '-' && s[i] != '_',
    ensures
        before_subtag(s) == s,
    decreases s.len(),
{
    if s.len() > 0 {
        assert(s[0] != '-' && s[0] != '_');
        let rest = s.skip(1);
        assert forall|i: int| 0 <= i < rest.len() implies #[trigger] rest[i] != '-' && rest[i]
            != '_' by {
            assert(rest[i] == s[i + 1]);
        }
        lemma_no_subtag(rest);
        assert(before_subtag(s) =~= s);
    } else {
        assert(before_subtag(s) =~= s);
    }
}

/// A plain code in small letters stands for itself.
pub proof fn plain_codes_stand_for_themselves(code: Seq<char>)
    requires
        forall|i: int| 0 <= i < code.len() ==> 'a' <= #[trigger] code[i] <= 'z',
    ensures
        language_code(code) == code,
{
    if code.len() > 0 {
        assert('a' <= code[0] <= 'z');
        assert('a' <= code[code.len() - 1] <= 'z');
    }
    assert(trimmed(code) == code);
    assert(ascii_lower(code) =~= code) by {
        assert forall|i: int| 0 <= i < code.len() implies ascii_lower(code)[i] == code[i] by {
            assert('a' <= code[i] <= 'z');
        }
    }
    assert forall|i: int| 0 <= i < code.len() implies #[trigger] code[i] != '-' && code[i]
        != '_' by {
        assert('a' <= code[i] <= 'z');
    }
    lemma_no_subtag(code);
}

/// A whitelist keeps every track whose language it names under the same code or under
/// the other spelling of it, wherever the entry stands, and no other track that has a
/// language.
pub proof fn whitelists_keep_what_they_name(whitelist: Seq<Seq<char>>, tag: Seq<char>, i: int)
    requires
        0 <= i < whitelist.len(),
        language_code(whitelist[i]).len() > 0,
    ensures
        language_code(whitelist[i]) == language_code(tag) ==> language_kept(whitelist, Some(tag)),
        alias_of(language_code(whitelist[i])) == Some(language_code(tag)) ==> language_kept(
            whitelist,
            Some(tag),
        ),
        language_kept(whitelist, Some(tag)) && trimmed(tag).len() > 0 && ascii_lower(trimmed(tag))
            != "und"@ ==> exists|k: int|
            0 <= k < whitelist.len() && (language_code(#[trigger] whitelist[k]) == language_code(
                tag,
            ) || alias_of(language_code(whitelist[k])) == Some(language_code(tag))),
{
    assert(same_language(whitelist[i], tag) ==> language_kept(whitelist, Some(tag)));
}

/// The codecs that lose nothing are these four and every form of PCM, and no other.
pub proof fn lossless_codecs_are_known(codec: Seq<char>)
    ensures
        codec_is_lossless("flac"@) && codec_is_lossless("alac"@) && codec_is_lossless("wavpack"@)
            && codec_is_lossless("tta"@),
        codec_is_lossless("pcm_"@ + codec),
        codec_is_lossless(codec) ==> codec == "flac"@ || codec == "alac"@ || codec == "wavpack"@
            || codec == "tta"@ || has_prefix(codec, "pcm_"@),
{
    assert(("pcm_"@ + codec).take("pcm_"@.len() as int) =~= "pcm_"@);
}

/// The nearest number is off by a half at most, and a half is rounded up.
pub proof fn nearest_is_off_by_half_at_most(num: nat, den: nat)
    requires
        den > 0,
    ensures
        2 * (nearest(num, den) * den) <= 2 * num + den,
        2 * num + den < 2 * (nearest(num, den) * den) + 2 * den,
{
    let q = nearest(num, den);
    assert(2 * (q * den) <= 2 * num + den < 2 * (q * den) + 2 * den) by (nonlinear_arith)
        requires
            q == (2 * num + den) / (2 * den),
            den > 0,
    ;
}

/// A number of frames takes the place of the seconds, which stand for the nearest
/// number of frames at the rate of the source; where that is none, chunks are not
/// split.
pub proof fn chunks_are_limited_by_frames_or_seconds(
    scenes: SceneDetectionConfig,
    fps_num: nat,
    fps_den: nat,
)
    requires
        fps_den > 0,
    ensures
        scenes.extra_split > 0 ==> max_chunk_frames(scenes, fps_num, fps_den) == Some(
            scenes.extra_split as nat,
        ),
        scenes.extra_split == 0 ==> match max_chunk_frames(scenes, fps_num, fps_den) {
            Some(n) => {
                &&& n > 0
                &&& 2 * (n * fps_den) <= 2 * (scenes.extra_split_sec as nat * fps_num) + fps_den
                &&& 2 * (scenes.extra_split_sec as nat * fps_num) + fps_den < 2 * (n * fps_den) + 2
                    * fps_den
            },
            None => 2 * (scenes.extra_split_sec as nat * fps_num) < fps_den,
        },
{
    nearest_is_off_by_half_at_most(scenes.extra_split_sec as nat * fps_num, fps_den);
    let n = nearest(scenes.extra_split_sec as nat * fps_num, fps_den);
    if n == 0 {
        assert(n * fps_den == 0) by (nonlinear_arith)
            requires
                n == 0,
        ;
    }
}

/// Each option of the profile reaches the encoder under its name, with its value behind
/// it: text and numbers as they are written, a switch as one or zero.
pub proof fn options_are_passed_by_name(c: Config, i: int)
    requires
        0 <= i < c.encoder_params.keys().len(),
    ensures
        c.args().len() == 2 * c.encoder_params.keys().len(),
        c.args()[2 * i] == "--"@ + c.encoder_params.keys()[i],
        c.encoder_params.values()[i] matches ParamValue::Str(s) ==> c.args()[2 * i + 1] == s@,
        c.encoder_params.values()[i] matches ParamValue::Int(n) ==> crate::number::parse_int(
            c.args()[2 * i + 1],
        ) == Some(n as int),
        c.encoder_params.values()[i] matches ParamValue::Float { value: _, text } ==> c.args()[2 * i
            + 1] == text@,
        c.encoder_params.values()[i] matches ParamValue::Bool(b) ==> c.args()[2 * i + 1] == (if b {
            "1"@
        } else {
            "0"@
        }),
{
    if let ParamValue::Int(n) = c.encoder_params.values()[i] {
        crate::number::parse_of_dec_int(n as int);
    }
}

/// A track without a tag, with a blank one, or with one that says in whatever case that
/// the language is undetermined, is kept by every whitelist.
pub proof fn undetermined_tracks_are_kept(whitelist: Seq<Seq<char>>, tag: Seq<char>)
    ensures
        language_kept(whitelist, None),
        trimmed(tag).len() == 0 ==> language_kept(whitelist, Some(tag)),
        ascii_lower(trimmed(tag)) == "und"@ ==> language_kept(whitelist, Some(tag)),
        language_kept(Seq::empty(), Some(tag)),
{
}

/// Where a profile says nothing of them, scenes have 24 frames at least and chunks ten
/// seconds at most.
pub proof fn chunks_are_ten_seconds_at_most_by_default(r: SceneDetectionConfig)
    requires
        call_ensures(<SceneDetectionConfig as Default>::default, (), r),
    ensures
        r.min_scene_len == 24,
        r.extra_split == 0,
        r.extra_split_sec == 10,
        r.speed == SceneDetectionSpeedConfig::Standard,
        r.downscale_height is None,
{
}

/// The search for a quality has the whole range of CRFs, two probes at least and seven at
/// most, and allows nine tenths of the size of the source, where a profile says nothing of
/// it; but the quality itself it has to say.
pub proof fn searches_are_bounded_by_default(r: TargetQualityConfig)
    requires
        call_ensures(<TargetQualityConfig as Default>::default, (), r),
    ensures
        r.jod.key() == 0,
        r.min_crf == 1 && r.max_crf == 70,
        r.min_probes == 2 && r.max_probes == 7,
        r.probe_preset == 13,
        r.tolerance.bits == 0x3fe0_0000_0000_0000,
        r.max_encoded_percent.bits == 0x4056_8000_0000_0000,
{
}

/// A profile that says nothing encodes the video as it is, and copies audio and subtitles.
pub proof fn profiles_copy_audio_and_subtitles_by_default(r: Config)
    requires
        call_ensures(<Config as Default>::default, (), r),
    ensures
        r.avxs.video == VideoMode::Encode && r.encoder is None,
        !r.avxs.hdr && !r.avxs.crop && !r.avxs.keyint && !r.avxs.keep_temp,
        r.avxs.scale is None && r.avxs.bit_depth is None,
        r.audio.mode == AudioMode::Copy && r.audio.language_whitelist@.len() == 0,
        r.subtitles.mode == SubtitleMode::Copy && r.subtitles.language_whitelist@.len() == 0,
        r.target_quality is None,
{
}

} // verus!
