//! The colours of an HDR source: what kind of HDR it is, and what the encoder
//! is told about it.
use vstd::prelude::*;

use crate::measure::selects_hlg;
use crate::number::{dec, dec_i64, dec_int, dec_u64, parse_i64, parse_int};
use crate::text::{
    contains, fold_case, folded, has_substring, lemma_sets_back, lemma_sets_front, opt_view, plus,
    push_str, push_string, sets, str_eq, to_chars, views,
};

verus! {

/// The code of a name in a table.
pub open spec fn code_in(table: Seq<(Seq<char>, u32)>, s: Seq<char>) -> Option<u32>
    decreases table.len(),
{
    if table.len() == 0 {
        None
    } else if table[0].0 == s {
        Some(table[0].1)
    } else {
        code_in(table.skip(1), s)
    }
}

fn find_code(table: &[(&'static str, u32)], s: &str, Ghost(codes): Ghost<Seq<(Seq<char>, u32)>>) -> (r:
    Option<u32>)
    requires
        codes.len() == table@.len(),
        forall|k: int|
            0 <= k < table@.len() ==> (#[trigger] codes[k]).0 == table@[k].0@ && codes[k].1
                == table@[k].1,
    ensures
        r == code_in(codes, s@),
{
    let mut i: usize = 0;
    assert(codes.skip(0) =~= codes);
    while i < table.len()
        invariant
            i <= table@.len(),
            codes.len() == table@.len(),
            forall|k: int|
                0 <= k < table@.len() ==> (#[trigger] codes[k]).0 == table@[k].0@ && codes[k].1
                    == table@[k].1,
            code_in(codes, s@) == code_in(codes.skip(i as int), s@),
        decreases table@.len() - i,
    {
        assert(codes.skip(i as int)[0] == codes[i as int]);
        assert(codes.skip(i as int).skip(1) =~= codes.skip(i + 1));
        if str_eq(table[i].0, s) {
            return Some(table[i].1);
        }
        i += 1;
    }
    None
}

/// The codes of ITU-T H.273 for colour primaries, by the names of ffprobe.
pub open spec fn primaries_codes() -> Seq<(Seq<char>, u32)> {
    seq![
        ("bt709"@, 1u32),
        ("bt470m"@, 4u32),
        ("bt470bg"@, 5u32),
        ("smpte170m"@, 6u32),
        ("smpte240m"@, 7u32),
        ("film"@, 8u32),
        ("bt2020"@, 9u32),
        ("smpte428"@, 10u32),
        ("smpte431"@, 11u32),
        ("smpte432"@, 12u32),
        ("ebu3213"@, 22u32),
    ]
}

/// The code of the colour primaries with the given name.
pub fn map_color_primaries(s: &str) -> (r: Option<u32>)
    ensures
        r == code_in(primaries_codes(), s@),
{
    let table: [(&'static str, u32); 11] = [
        ("bt709", 1),
        ("bt470m", 4),
        ("bt470bg", 5),
        ("smpte170m", 6),
        ("smpte240m", 7),
        ("film", 8),
        ("bt2020", 9),
        ("smpte428", 10),
        ("smpte431", 11),
        ("smpte432", 12),
        ("ebu3213", 22),
    ];
    let ghost codes = primaries_codes();
    assert(forall|k: int|
        0 <= k < 11 ==> (#[trigger] codes[k]).0 == table@[k].0@ && codes[k].1 == table@[k].1);
    find_code(table.as_slice(), s, Ghost(codes))
}

/// The codes of ITU-T H.273 for transfer characteristics.
pub open spec fn transfer_codes() -> Seq<(Seq<char>, u32)> {
    seq![
        ("bt709"@, 1u32),
        ("gamma22"@, 4u32),
        ("gamma28"@, 5u32),
        ("smpte170m"@, 6u32),
        ("smpte240m"@, 7u32),
        ("linear"@, 8u32),
        ("log"@, 9u32),
        ("log_sqrt"@, 10u32),
        ("iec61966-2-4"@, 11u32),
        ("bt1361"@, 12u32),
        ("iec61966-2-1"@, 13u32),
        ("bt2020-10"@, 14u32),
        ("bt2020-12"@, 15u32),
        ("smpte2084"@, 16u32),
        ("smpte428"@, 17u32),
        ("arib-std-b67"@, 18u32),
    ]
}

/// The code of the transfer characteristics with the given name.
pub fn map_transfer(s: &str) -> (r: Option<u32>)
    ensures
        r == code_in(transfer_codes(), s@),
{
    let table: [(&'static str, u32); 16] = [
        ("bt709", 1),
        ("gamma22", 4),
        ("gamma28", 5),
        ("smpte170m", 6),
        ("smpte240m", 7),
        ("linear", 8),
        ("log", 9),
        ("log_sqrt", 10),
        ("iec61966-2-4", 11),
        ("bt1361", 12),
        ("iec61966-2-1", 13),
        ("bt2020-10", 14),
        ("bt2020-12", 15),
        ("smpte2084", 16),
        ("smpte428", 17),
        ("arib-std-b67", 18),
    ];
    let ghost codes = transfer_codes();
    assert(forall|k: int|
        0 <= k < 16 ==> (#[trigger] codes[k]).0 == table@[k].0@ && codes[k].1 == table@[k].1);
    find_code(table.as_slice(), s, Ghost(codes))
}

/// The codes of ITU-T H.273 for matrix coefficients.
pub open spec fn matrix_codes() -> Seq<(Seq<char>, u32)> {
    seq![
        ("gbr"@, 0u32),
        ("bt709"@, 1u32),
        ("fcc"@, 4u32),
        ("bt470bg"@, 5u32),
        ("smpte170m"@, 6u32),
        ("smpte240m"@, 7u32),
        ("ycgco"@, 8u32),
        ("bt2020nc"@, 9u32),
        ("bt2020c"@, 10u32),
        ("smpte2085"@, 11u32),
        ("chroma-derived-nc"@, 12u32),
        ("chroma-derived-c"@, 13u32),
        ("ictcp"@, 14u32),
    ]
}

/// The code of the matrix coefficients with the given name.
pub fn map_matrix(s: &str) -> (r: Option<u32>)
    ensures
        r == code_in(matrix_codes(), s@),
{
    let table: [(&'static str, u32); 13] = [
        ("gbr", 0),
        ("bt709", 1),
        ("fcc", 4),
        ("bt470bg", 5),
        ("smpte170m", 6),
        ("smpte240m", 7),
        ("ycgco", 8),
        ("bt2020nc", 9),
        ("bt2020c", 10),
        ("smpte2085", 11),
        ("chroma-derived-nc", 12),
        ("chroma-derived-c", 13),
        ("ictcp", 14),
    ];
    let ghost codes = matrix_codes();
    assert(forall|k: int|
        0 <= k < 13 ==> (#[trigger] codes[k]).0 == table@[k].0@ && codes[k].1 == table@[k].1);
    find_code(table.as_slice(), s, Ghost(codes))
}

/// The encoder's codes for the positions of chroma samples. Other positions have
/// no counterpart in AV1.
pub open spec fn chroma_codes() -> Seq<(Seq<char>, u32)> {
    seq![
        ("left"@, 1u32),
        ("topleft"@, 2u32),
    ]
}

/// The code of the chroma sample position with the given name.
pub fn map_chroma(s: &str) -> (r: Option<u32>)
    ensures
        r == code_in(chroma_codes(), s@),
{
    let table: [(&'static str, u32); 2] = [
        ("left", 1),
        ("topleft", 2),
    ];
    let ghost codes = chroma_codes();
    assert(forall|k: int|
        0 <= k < 2 ==> (#[trigger] codes[k]).0 == table@[k].0@ && codes[k].1 == table@[k].1);
    find_code(table.as_slice(), s, Ghost(codes))
}

/// The encoder's codes for the range of samples: studio and full.
pub open spec fn range_codes() -> Seq<(Seq<char>, u32)> {
    seq![
        ("tv"@, 0u32),
        ("pc"@, 1u32),
    ]
}

/// The code of the sample range with the given name.
pub fn map_range(s: &str) -> (r: Option<u32>)
    ensures
        r == code_in(range_codes(), s@),
{
    let table: [(&'static str, u32); 2] = [
        ("tv", 0),
        ("pc", 1),
    ];
    let ghost codes = range_codes();
    assert(forall|k: int|
        0 <= k < 2 ==> (#[trigger] codes[k]).0 == table@[k].0@ && codes[k].1 == table@[k].1);
    find_code(table.as_slice(), s, Ghost(codes))
}

/// What is known of the colours of a source.
#[derive(Debug)]
pub struct HdrInfo {
    /// `Dolby Vision`, `HDR10+`, `HDR10`, `HLG` or `SDR`; empty when unknown.
    pub hdr_type: String,
    pub color_primaries: Option<u32>,
    pub transfer_characteristics: Option<u32>,
    pub matrix_coefficients: Option<u32>,
    pub chroma_sample_position: Option<u32>,
    pub color_range: Option<u32>,
    pub content_light_level: Option<String>,
    pub mastering_display: Option<String>,
}

impl Default for HdrInfo {
    fn default() -> (r: Self)
        ensures
            r.hdr_type@ == ""@,
            r.color_primaries is None,
            r.transfer_characteristics is None,
            r.matrix_coefficients is None,
            r.chroma_sample_position is None,
            r.color_range is None,
            r.content_light_level is None,
            r.mastering_display is None,
    {
        HdrInfo {
            hdr_type: "".to_owned(),
            color_primaries: None,
            transfer_characteristics: None,
            matrix_coefficients: None,
            chroma_sample_position: None,
            color_range: None,
            content_light_level: None,
            mastering_display: None,
        }
    }
}

/// An option of the encoder with a number, where it is known.
pub open spec fn number_arg(flag: Seq<char>, value: Option<u32>) -> Seq<Seq<char>> {
    match value {
        Some(v) => seq![flag, dec(v as nat)],
        None => Seq::empty(),
    }
}

/// An option of the encoder with a text, where it is known.
pub open spec fn text_arg(flag: Seq<char>, value: Option<Seq<char>>) -> Seq<Seq<char>> {
    match value {
        Some(v) => seq![flag, v],
        None => Seq::empty(),
    }
}

impl HdrInfo {
    pub open spec fn hdr(self) -> bool {
        self.hdr_type@.len() > 0 && self.hdr_type@ != "SDR"@
    }

    /// The options of the encoder for what is known.
    pub open spec fn args(self) -> Seq<Seq<char>> {
        number_arg("--color-primaries"@, self.color_primaries) + number_arg(
            "--transfer-characteristics"@,
            self.transfer_characteristics,
        ) + number_arg("--matrix-coefficients"@, self.matrix_coefficients) + number_arg(
            "--chroma-sample-position"@,
            self.chroma_sample_position,
        ) + number_arg("--color-range"@, self.color_range) + text_arg(
            "--content-light"@,
            opt_view(self.content_light_level),
        ) + text_arg("--mastering-display"@, opt_view(self.mastering_display))
    }

    pub fn is_hdr(&self) -> (r: bool)
        ensures
            r == self.hdr(),
    {
        to_chars(self.hdr_type.as_str()).len() > 0 && !str_eq(self.hdr_type.as_str(), "SDR")
    }

    pub fn encoder_args(&self) -> (r: Vec<String>)
        ensures
            views(r@) == self.args(),
    {
        let mut args: Vec<String> = Vec::new();
        assert(views(args@) =~= Seq::<Seq<char>>::empty());
        push_number(&mut args, "--color-primaries", self.color_primaries);
        push_number(&mut args, "--transfer-characteristics", self.transfer_characteristics);
        push_number(&mut args, "--matrix-coefficients", self.matrix_coefficients);
        push_number(&mut args, "--chroma-sample-position", self.chroma_sample_position);
        push_number(&mut args, "--color-range", self.color_range);
        push_text(&mut args, "--content-light", &self.content_light_level);
        push_text(&mut args, "--mastering-display", &self.mastering_display);
        assert(views(args@) =~= self.args());
        args
    }
}

fn push_number(args: &mut Vec<String>, flag: &str, value: Option<u32>)
    ensures
        views(final(args)@) == views(old(args)@) + number_arg(flag@, value),
{
    let ghost before = views(args@);
    if let Some(v) = value {
        push_str(args, flag);
        push_string(args, dec_u64(v as u64));
    }
    assert(views(args@) =~= before + number_arg(flag@, value));
}

fn push_text(args: &mut Vec<String>, flag: &str, value: &Option<String>)
    ensures
        views(final(args)@) == views(old(args)@) + text_arg(flag@, opt_view(*value)),
{
    let ghost before = views(args@);
    if let Some(v) = value {
        push_str(args, flag);
        push_str(args, v.as_str());
    }
    assert(views(args@) =~= before + text_arg(flag@, opt_view(*value)));
}

/// A value that a probe reports: an integer, a text, or something else.
#[derive(Debug)]
pub enum JsonScalar {
    Int(i64),
    Str(String),
    Other,
}

/// The integer that a reported value stands for, zero where it is none.
pub open spec fn int_of(v: JsonScalar) -> int {
    match v {
        JsonScalar::Int(n) => n as int,
        JsonScalar::Str(s) => match parse_int(s@) {
            Some(n) => n,
            None => 0,
        },
        JsonScalar::Other => 0,
    }
}

pub fn val_to_i64(v: &JsonScalar) -> (r: i64)
    ensures
        r == int_of(*v),
{
    match v {
        JsonScalar::Int(n) => *n,
        JsonScalar::Str(s) => match parse_i64(s.as_str()) {
            Some(n) => n,
            None => 0,
        },
        JsonScalar::Other => 0,
    }
}

/// The display that a source was mastered on: the coordinates of its primaries
/// and of its white point, and its luminance, each as a decimal fraction.
#[derive(Debug)]
pub struct MasteringDisplay {
    pub green: (String, String),
    pub blue: (String, String),
    pub red: (String, String),
    pub white_point: (String, String),
    /// The greatest and the least luminance.
    pub luminance: (String, String),
}

/// Two numbers in brackets.
pub open spec fn pair_text(pair: (String, String)) -> Seq<char> {
    "("@ + pair.0@ + ","@ + pair.1@ + ")"@
}

impl MasteringDisplay {
    pub open spec fn text(self) -> Seq<char> {
        "G"@ + pair_text(self.green) + "B"@ + pair_text(self.blue) + "R"@ + pair_text(self.red)
            + "WP"@ + pair_text(self.white_point) + "L"@ + pair_text(self.luminance)
    }

    /// How the encoder is told about the display.
    pub fn to_arg(&self) -> (r: String)
        ensures
            r@ == self.text(),
    {
        let r = plus("G".to_owned(), pair_of(&self.green).as_str());
        let r = plus(plus(r, "B"), pair_of(&self.blue).as_str());
        let r = plus(plus(r, "R"), pair_of(&self.red).as_str());
        let r = plus(plus(r, "WP"), pair_of(&self.white_point).as_str());
        plus(plus(r, "L"), pair_of(&self.luminance).as_str())
    }
}

fn pair_of(pair: &(String, String)) -> (r: String)
    ensures
        r@ == pair_text(*pair),
{
    let r = plus("(".to_owned(), pair.0.as_str());
    plus(plus(plus(r, ","), pair.1.as_str()), ")")
}

/// A piece of metadata beside the first frame.
#[derive(Debug)]
pub struct SideData {
    pub kind: String,
    pub max_content: Option<JsonScalar>,
    pub max_average: Option<JsonScalar>,
    pub mastering: Option<MasteringDisplay>,
}

/// What a probe reports about the colours of a source.
#[derive(Debug)]
pub struct HdrProbe {
    pub color_primaries: String,
    pub color_transfer: String,
    pub color_space: String,
    pub chroma_location: String,
    pub color_range: String,
    pub side_data: Vec<SideData>,
    /// The Dolby Vision profile of the stream, if it has one.
    pub dolby_vision_profile: Option<i64>,
}

/// Why a source is refused.
#[derive(Debug, Clone, Copy, PartialEq, Eq, Structural)]
pub enum HdrError {
    /// It has no base layer that could be shown without the metadata.
    NoBaseLayer,
}

impl HdrError {
    pub fn message(&self) -> (r: String)
        ensures
            r@
                == "Dolby Vision profile 5 has no HDR10 base layer: an encode would have wrong colours"@,
    {
        "Dolby Vision profile 5 has no HDR10 base layer: an encode would have wrong colours".to_owned()
    }
}

/// Some piece of metadata is of a kind whose name holds `needle`, in whatever
/// case.
pub open spec fn has_kind(side: Seq<SideData>, needle: Seq<char>) -> bool {
    exists|i: int| 0 <= i < side.len() && has_substring(folded((#[trigger] side[i]).kind@), needle)
}

/// The kind of HDR that a source has.
pub open spec fn hdr_kind(probe: HdrProbe) -> Seq<char> {
    let side = probe.side_data@;
    if has_kind(side, "dovi"@) || has_kind(side, "dolby"@) {
        "Dolby Vision"@
    } else if has_kind(side, "hdr10+"@) || has_kind(side, "hdr_dynamic"@) {
        "HDR10+"@
    } else if probe.color_transfer@ == "smpte2084"@ {
        "HDR10"@
    } else if probe.color_transfer@ == "arib-std-b67"@ {
        "HLG"@
    } else {
        "SDR"@
    }
}

/// The light levels in a piece of metadata.
pub open spec fn light_of(data: SideData) -> Option<Seq<char>> {
    match (data.max_content, data.max_average) {
        (Some(content), Some(average)) => Some(
            dec_int(int_of(content)) + ","@ + dec_int(int_of(average)),
        ),
        _ => None,
    }
}

/// The first light levels in a list of metadata.
pub open spec fn first_light(side: Seq<SideData>) -> Option<Seq<char>>
    decreases side.len(),
{
    if side.len() == 0 {
        None
    } else {
        match first_light(side.drop_last()) {
            Some(text) => Some(text),
            None => light_of(side.last()),
        }
    }
}

/// The first mastering display in a list of metadata.
pub open spec fn first_mastering(side: Seq<SideData>) -> Option<Seq<char>>
    decreases side.len(),
{
    if side.len() == 0 {
        None
    } else {
        match first_mastering(side.drop_last()) {
            Some(text) => Some(text),
            None => match side.last().mastering {
                Some(m) => Some(m.text()),
                None => None,
            },
        }
    }
}

fn any_kind(side: &Vec<SideData>, needle: &str) -> (r: bool)
    ensures
        r == has_kind(side@, needle@),
{
    let mut i: usize = 0;
    while i < side.len()
        invariant
            i <= side@.len(),
            forall|k: int|
                0 <= k < i ==> !has_substring(folded((#[trigger] side@[k]).kind@), needle@),
        decreases side@.len() - i,
    {
        if contains(fold_case(side[i].kind.as_str()).as_str(), needle) {
            assert(has_substring(folded(side@[i as int].kind@), needle@));
            return true;
        }
        i += 1;
    }
    false
}

fn find_light(side: &Vec<SideData>) -> (r: Option<String>)
    ensures
        opt_view(r) == first_light(side@),
{
    let mut found: Option<String> = None;
    let mut i: usize = 0;
    while i < side.len()
        invariant
            i <= side@.len(),
            opt_view(found) == first_light(side@.take(i as int)),
        decreases side@.len() - i,
    {
        assert(side@.take(i + 1).drop_last() =~= side@.take(i as int));
        if found.is_none() {
            if let (Some(content), Some(average)) = (&side[i].max_content, &side[i].max_average) {
                found = Some(
                    plus(
                        plus(dec_i64(val_to_i64(content)), ","),
                        dec_i64(val_to_i64(average)).as_str(),
                    ),
                );
            }
        }
        i += 1;
    }
    assert(side@.take(i as int) =~= side@);
    found
}

fn find_mastering(side: &Vec<SideData>) -> (r: Option<String>)
    ensures
        opt_view(r) == first_mastering(side@),
{
    let mut found: Option<String> = None;
    let mut i: usize = 0;
    while i < side.len()
        invariant
            i <= side@.len(),
            opt_view(found) == first_mastering(side@.take(i as int)),
        decreases side@.len() - i,
    {
        assert(side@.take(i + 1).drop_last() =~= side@.take(i as int));
        if found.is_none() {
            if let Some(m) = &side[i].mastering {
                found = Some(m.to_arg());
            }
        }
        i += 1;
    }
    assert(side@.take(i as int) =~= side@);
    found
}

fn kind_of(probe: &HdrProbe) -> (r: &'static str)
    ensures
        r@ == hdr_kind(*probe),
{
    if any_kind(&probe.side_data, "dovi") || any_kind(&probe.side_data, "dolby") {
        "Dolby Vision"
    } else if any_kind(&probe.side_data, "hdr10+") || any_kind(&probe.side_data, "hdr_dynamic") {
        "HDR10+"
    } else if str_eq(probe.color_transfer.as_str(), "smpte2084") {
        "HDR10"
    } else if str_eq(probe.color_transfer.as_str(), "arib-std-b67") {
        "HLG"
    } else {
        "SDR"
    }
}

/// What is known of the colours of a source, from what a probe reports.
pub fn describe_hdr(probe: &HdrProbe) -> (r: Result<HdrInfo, HdrError>)
    ensures
        r is Err <==> probe.dolby_vision_profile == Some(5i64),
        r matches Ok(info) ==> {
            &&& info.hdr_type@ == hdr_kind(*probe)
            &&& info.color_primaries == code_in(primaries_codes(), probe.color_primaries@)
            &&& info.transfer_characteristics == code_in(transfer_codes(), probe.color_transfer@)
            &&& info.matrix_coefficients == code_in(matrix_codes(), probe.color_space@)
            &&& info.chroma_sample_position == code_in(chroma_codes(), probe.chroma_location@)
            &&& info.color_range == code_in(range_codes(), probe.color_range@)
            &&& opt_view(info.content_light_level) == first_light(probe.side_data@)
            &&& opt_view(info.mastering_display) == first_mastering(probe.side_data@)
        },
{
    if let Some(profile) = probe.dolby_vision_profile {
        if profile == 5 {
            return Err(HdrError::NoBaseLayer);
        }
    }
    Ok(
        HdrInfo {
            hdr_type: kind_of(probe).to_owned(),
            color_primaries: map_color_primaries(probe.color_primaries.as_str()),
            transfer_characteristics: map_transfer(probe.color_transfer.as_str()),
            matrix_coefficients: map_matrix(probe.color_space.as_str()),
            chroma_sample_position: map_chroma(probe.chroma_location.as_str()),
            color_range: map_range(probe.color_range.as_str()),
            content_light_level: find_light(&probe.side_data),
            mastering_display: find_mastering(&probe.side_data),
        },
    )
}

/// The metadata that a source of its kind should have and has not. HLG has none
/// by design.
pub open spec fn missing_of(info: HdrInfo) -> Seq<Seq<char>> {
    if !info.hdr() || info.hdr_type@ == "HLG"@ {
        Seq::empty()
    } else {
        (if info.content_light_level is None {
            seq!["MaxCLL/MaxFALL"@]
        } else {
            Seq::empty()
        }) + (if info.mastering_display is None {
            seq!["Mastering Display"@]
        } else {
            Seq::empty()
        })
    }
}

pub fn missing_metadata(info: &HdrInfo) -> (r: Vec<String>)
    ensures
        views(r@) == missing_of(*info),
{
    let mut missing: Vec<String> = Vec::new();
    if info.is_hdr() && !str_eq(info.hdr_type.as_str(), "HLG") {
        if info.content_light_level.is_none() {
            push_str(&mut missing, "MaxCLL/MaxFALL");
        }
        if info.mastering_display.is_none() {
            push_str(&mut missing, "Mastering Display");
        }
    }
    assert(views(missing@) =~= missing_of(*info));
    missing
}

/// True for the kinds of which only the base layer is encoded.
pub fn falls_back_to_base_layer(info: &HdrInfo) -> (r: bool)
    ensures
        r == (info.hdr_type@ == "Dolby Vision"@ || info.hdr_type@ == "HDR10+"@),
{
    str_eq(info.hdr_type.as_str(), "Dolby Vision") || str_eq(info.hdr_type.as_str(), "HDR10+")
}

/// The transfer is set in one of two lists, where the second does not begin with
/// its value, exactly when it is set in them one after the other.
proof fn lemma_selects_in_parts(a: Seq<Seq<char>>, b: Seq<Seq<char>>)
    requires
        b.len() > 0 ==> b[0] != "18"@,
    ensures
        selects_hlg(a + b) <==> selects_hlg(a) || selects_hlg(b),
{
    let all = a + b;
    let flag = "--transfer-characteristics"@;
    if selects_hlg(a) {
        let i = choose|i: int|
            0 <= i && i + 1 < a.len() && #[trigger] a[i] == flag && a[i + 1] == "18"@;
        assert(all[i] == a[i] && all[i + 1] == a[i + 1]);
    }
    if selects_hlg(b) {
        let i = choose|i: int|
            0 <= i && i + 1 < b.len() && #[trigger] b[i] == flag && b[i + 1] == "18"@;
        assert(all[a.len() + i] == b[i] && all[a.len() + i + 1] == b[i + 1]);
    }
    if selects_hlg(all) {
        let i = choose|i: int|
            0 <= i && i + 1 < all.len() && #[trigger] all[i] == flag && all[i + 1] == "18"@;
        if i + 1 < a.len() {
            assert(a[i] == all[i] && a[i + 1] == all[i + 1]);
        } else if i >= a.len() {
            assert(b[i - a.len()] == all[i] && b[i - a.len() + 1] == all[i + 1]);
        } else {
            assert(all[i + 1] == b[0]);
        }
    }
}

proof fn lemma_selects_pair(flag: Seq<char>, value: Seq<char>)
    ensures
        selects_hlg(seq![flag, value]) <==> flag == "--transfer-characteristics"@ && value == "18"@,
{
    let pair = seq![flag, value];
    if flag == "--transfer-characteristics"@ && value == "18"@ {
        assert(pair[0] == "--transfer-characteristics"@ && pair[0int + 1] == "18"@);
    }
}

proof fn lemma_eighteen(n: nat)
    ensures
        dec(n) == "18"@ <==> n == 18,
{
    reveal_strlit("18");
    reveal_with_fuel(dec, 3);
    assert(dec(18) =~= "18"@);
    if dec(n) == "18"@ {
        crate::number::dec_injective(n, 18);
    }
}

proof fn lemma_number_selects(flag: Seq<char>, value: Option<u32>)
    ensures
        selects_hlg(number_arg(flag, value)) <==> flag == "--transfer-characteristics"@ && value
            == Some(18u32),
{
    if let Some(v) = value {
        lemma_selects_pair(flag, dec(v as nat));
        lemma_eighteen(v as nat);
    }
}

proof fn lemma_text_selects(flag: Seq<char>, value: Option<Seq<char>>)
    ensures
        flag != "--transfer-characteristics"@ ==> !selects_hlg(text_arg(flag, value)),
{
    if let Some(v) = value {
        lemma_selects_pair(flag, v);
    }
}

/// The options found for a source select the display for HLG exactly when its
/// transfer is that of HLG.
pub proof fn hlg_is_told_by_the_transfer(info: HdrInfo)
    ensures
        selects_hlg(info.args()) <==> info.transfer_characteristics == Some(18u32),
{
    reveal_strlit("18");
    reveal_strlit("--color-primaries");
    reveal_strlit("--transfer-characteristics");
    reveal_strlit("--matrix-coefficients");
    reveal_strlit("--chroma-sample-position");
    reveal_strlit("--color-range");
    reveal_strlit("--content-light");
    reveal_strlit("--mastering-display");
    let p1 = number_arg("--color-primaries"@, info.color_primaries);
    let p2 = number_arg("--transfer-characteristics"@, info.transfer_characteristics);
    let p3 = number_arg("--matrix-coefficients"@, info.matrix_coefficients);
    let p4 = number_arg("--chroma-sample-position"@, info.chroma_sample_position);
    let p5 = number_arg("--color-range"@, info.color_range);
    let p6 = text_arg("--content-light"@, opt_view(info.content_light_level));
    let p7 = text_arg("--mastering-display"@, opt_view(info.mastering_display));
    lemma_number_selects("--color-primaries"@, info.color_primaries);
    lemma_number_selects("--transfer-characteristics"@, info.transfer_characteristics);
    lemma_number_selects("--matrix-coefficients"@, info.matrix_coefficients);
    lemma_number_selects("--chroma-sample-position"@, info.chroma_sample_position);
    lemma_number_selects("--color-range"@, info.color_range);
    lemma_text_selects("--content-light"@, opt_view(info.content_light_level));
    lemma_text_selects("--mastering-display"@, opt_view(info.mastering_display));
    assert("18"@.len() == 2);
    assert("--color-primaries"@.len() > 2);
    assert("--transfer-characteristics"@.len() > 2);
    assert("--matrix-coefficients"@.len() > 2);
    assert("--chroma-sample-position"@.len() > 2);
    assert("--color-range"@.len() > 2);
    assert("--content-light"@.len() > 2);
    assert("--mastering-display"@.len() > 2);
    lemma_selects_in_parts(p1, p2);
    lemma_selects_in_parts(p1 + p2, p3);
    lemma_selects_in_parts(p1 + p2 + p3, p4);
    lemma_selects_in_parts(p1 + p2 + p3 + p4, p5);
    lemma_selects_in_parts(p1 + p2 + p3 + p4 + p5, p6);
    lemma_selects_in_parts(p1 + p2 + p3 + p4 + p5 + p6, p7);
    assert("--color-primaries"@.len() != "--transfer-characteristics"@.len());
    assert("--matrix-coefficients"@.len() != "--transfer-characteristics"@.len());
    assert("--chroma-sample-position"@.len() != "--transfer-characteristics"@.len());
    assert("--color-range"@.len() != "--transfer-characteristics"@.len());
    assert("--content-light"@.len() != "--transfer-characteristics"@.len());
    assert("--mastering-display"@.len() != "--transfer-characteristics"@.len());
}

/// The light level is that of the first piece of metadata that has both of its
/// numbers, wherever in the list it stands, and is unknown only where none has.
pub proof fn the_first_light_level_counts(side: Seq<SideData>)
    ensures
        first_light(side) is None <==> forall|i: int|
            0 <= i < side.len() ==> (#[trigger] side[i]).max_content is None
                || side[i].max_average is None,
        forall|i: int|
            0 <= i < side.len() && (#[trigger] side[i]).max_content is Some
                && side[i].max_average is Some && (forall|k: int|
                0 <= k < i ==> (#[trigger] side[k]).max_content is None
                    || side[k].max_average is None) ==> first_light(side) == Some(
                dec_int(int_of(side[i].max_content.unwrap())) + ","@ + dec_int(
                    int_of(side[i].max_average.unwrap()),
                ),
            ),
    decreases side.len(),
{
    if side.len() > 0 {
        let init = side.drop_last();
        let n = side.len() - 1;
        the_first_light_level_counts(init);
        assert(side[n] == side.last());
        assert forall|k: int| 0 <= k < init.len() implies init[k] == side[k] by {}
        if first_light(init) is None {
            assert forall|i: int| 0 <= i < n implies (#[trigger] side[i]).max_content is None
                || side[i].max_average is None by {
                assert(init[i] == side[i]);
            }
        } else {
            let i = choose|i: int|
                0 <= i < init.len() && !((#[trigger] init[i]).max_content is None
                    || init[i].max_average is None);
            assert(side[i] == init[i]);
        }
        assert forall|i: int|
            0 <= i < side.len() && (#[trigger] side[i]).max_content is Some
                && side[i].max_average is Some && (forall|k: int|
                0 <= k < i ==> (#[trigger] side[k]).max_content is None
                    || side[k].max_average is None) implies first_light(side) == Some(
            dec_int(int_of(side[i].max_content.unwrap())) + ","@ + dec_int(
                int_of(side[i].max_average.unwrap()),
            ),
        ) by {
            if i < n {
                assert(init[i] == side[i]);
                assert forall|k: int| 0 <= k < i implies (#[trigger] init[k]).max_content is None
                    || init[k].max_average is None by {
                    assert(init[k] == side[k]);
                }
            } else {
                assert forall|k: int| 0 <= k < init.len() implies (
                #[trigger] init[k]).max_content is None || init[k].max_average is None by {
                    assert(init[k] == side[k]);
                }
            }
        }
    }
}

/// The mastering display is that of the first piece of metadata that has one, and
/// is unknown only where none has.
pub proof fn the_first_mastering_display_counts(side: Seq<SideData>)
    ensures
        first_mastering(side) is None <==> forall|i: int|
            0 <= i < side.len() ==> (#[trigger] side[i]).mastering is None,
        forall|i: int|
            0 <= i < side.len() && (#[trigger] side[i]).mastering is Some && (forall|k: int|
                0 <= k < i ==> (#[trigger] side[k]).mastering is None) ==> first_mastering(side)
                == Some(side[i].mastering.unwrap().text()),
    decreases side.len(),
{
    if side.len() > 0 {
        let init = side.drop_last();
        let n = side.len() - 1;
        the_first_mastering_display_counts(init);
        assert(side[n] == side.last());
        assert forall|k: int| 0 <= k < init.len() implies init[k] == side[k] by {}
        if first_mastering(init) is None {
            assert forall|i: int| 0 <= i < n implies (#[trigger] side[i]).mastering is None by {
                assert(init[i] == side[i]);
            }
        } else {
            let i = choose|i: int|
                0 <= i < init.len() && !((#[trigger] init[i]).mastering is None);
            assert(side[i] == init[i]);
        }
        assert forall|i: int|
            0 <= i < side.len() && (#[trigger] side[i]).mastering is Some && (forall|k: int|
                0 <= k < i ==> (#[trigger] side[k]).mastering is None) implies first_mastering(
            side,
        ) == Some(side[i].mastering.unwrap().text()) by {
            if i < n {
                assert(init[i] == side[i]);
                assert forall|k: int| 0 <= k < i implies (
                #[trigger] init[k]).mastering is None by {
                    assert(init[k] == side[k]);
                }
            } else {
                assert forall|k: int| 0 <= k < init.len() implies (
                #[trigger] init[k]).mastering is None by {
                    assert(init[k] == side[k]);
                }
            }
        }
    }
}

/// A code that is found stands beside the name in the table, and none is found only
/// where the name is not in it.
proof fn lemma_code_in(table: Seq<(Seq<char>, u32)>, s: Seq<char>)
    ensures
        match code_in(table, s) {
            Some(c) => exists|k: int| 0 <= k < table.len() && #[trigger] table[k] == (s, c),
            None => forall|k: int| 0 <= k < table.len() ==> (#[trigger] table[k]).0 != s,
        },
    decreases table.len(),
{
    if table.len() > 0 {
        let rest = table.skip(1);
        lemma_code_in(rest, s);
        assert(forall|k: int| 0 <= k < rest.len() ==> rest[k] == table[k + 1]);
        if table[0].0 != s {
            if let Some(c) = code_in(rest, s) {
                let k = choose|k: int| 0 <= k < rest.len() && #[trigger] rest[k] == (s, c);
                assert(table[k + 1] == (s, c));
            } else {
                assert forall|k: int| 0 <= k < table.len() implies (#[trigger] table[k]).0
                    != s by {
                    if k > 0 {
                        assert(rest[k - 1].0 != s);
                    }
                }
            }
        } else {
            assert(table[0] == (s, table[0].1));
        }
    }
}

/// The codes for colour primaries are those of the names that the standard gives
/// them, and every one of these names has its code.
pub proof fn primaries_have_their_codes(s: Seq<char>)
    ensures
        code_in(primaries_codes(), s) == Some(1u32) <==> s == "bt709"@,
        code_in(primaries_codes(), s) == Some(4u32) <==> s == "bt470m"@,
        code_in(primaries_codes(), s) == Some(5u32) <==> s == "bt470bg"@,
        code_in(primaries_codes(), s) == Some(6u32) <==> s == "smpte170m"@,
        code_in(primaries_codes(), s) == Some(7u32) <==> s == "smpte240m"@,
        code_in(primaries_codes(), s) == Some(8u32) <==> s == "film"@,
        code_in(primaries_codes(), s) == Some(9u32) <==> s == "bt2020"@,
        code_in(primaries_codes(), s) == Some(10u32) <==> s == "smpte428"@,
        code_in(primaries_codes(), s) == Some(11u32) <==> s == "smpte431"@,
        code_in(primaries_codes(), s) == Some(12u32) <==> s == "smpte432"@,
        code_in(primaries_codes(), s) == Some(22u32) <==> s == "ebu3213"@,
        code_in(primaries_codes(), s) is Some ==> s == "bt709"@ || s == "bt470m"@
            || s == "bt470bg"@ || s == "smpte170m"@ || s == "smpte240m"@ || s == "film"@
            || s == "bt2020"@ || s == "smpte428"@ || s == "smpte431"@ || s == "smpte432"@
            || s == "ebu3213"@,
{
    reveal_strlit("bt709");
    reveal_strlit("bt470m");
    reveal_strlit("bt470bg");
    reveal_strlit("smpte170m");
    reveal_strlit("smpte240m");
    reveal_strlit("film");
    reveal_strlit("bt2020");
    reveal_strlit("smpte428");
    reveal_strlit("smpte431");
    reveal_strlit("smpte432");
    reveal_strlit("ebu3213");
    let t = primaries_codes();
    lemma_code_in(t, s);
    assert(t[0] == ("bt709"@, 1u32));
    assert(t[1] == ("bt470m"@, 4u32));
    assert(t[2] == ("bt470bg"@, 5u32));
    assert(t[3] == ("smpte170m"@, 6u32));
    assert(t[4] == ("smpte240m"@, 7u32));
    assert(t[5] == ("film"@, 8u32));
    assert(t[6] == ("bt2020"@, 9u32));
    assert(t[7] == ("smpte428"@, 10u32));
    assert(t[8] == ("smpte431"@, 11u32));
    assert(t[9] == ("smpte432"@, 12u32));
    assert(t[10] == ("ebu3213"@, 22u32));
    assert("bt709"@.len() != "bt470m"@.len());
    assert("bt709"@.len() != "bt470bg"@.len());
    assert("bt709"@.len() != "smpte170m"@.len());
    assert("bt709"@.len() != "smpte240m"@.len());
    assert("bt709"@.len() != "film"@.len());
    assert("bt709"@.len() != "bt2020"@.len());
    assert("bt709"@.len() != "smpte428"@.len());
    assert("bt709"@.len() != "smpte431"@.len());
    assert("bt709"@.len() != "smpte432"@.len());
    assert("bt709"@.len() != "ebu3213"@.len());
    assert("bt470m"@.len() != "bt470bg"@.len());
    assert("bt470m"@.len() != "smpte170m"@.len());
    assert("bt470m"@.len() != "smpte240m"@.len());
    assert("bt470m"@.len() != "film"@.len());
    assert("bt470m"@[2] != "bt2020"@[2]);
    assert("bt470m"@.len() != "smpte428"@.len());
    assert("bt470m"@.len() != "smpte431"@.len());
    assert("bt470m"@.len() != "smpte432"@.len());
    assert("bt470m"@.len() != "ebu3213"@.len());
    assert("bt470bg"@.len() != "smpte170m"@.len());
    assert("bt470bg"@.len() != "smpte240m"@.len());
    assert("bt470bg"@.len() != "film"@.len());
    assert("bt470bg"@.len() != "bt2020"@.len());
    assert("bt470bg"@.len() != "smpte428"@.len());
    assert("bt470bg"@.len() != "smpte431"@.len());
    assert("bt470bg"@.len() != "smpte432"@.len());
    assert("bt470bg"@[0] != "ebu3213"@[0]);
    assert("smpte170m"@[5] != "smpte240m"@[5]);
    assert("smpte170m"@.len() != "film"@.len());
    assert("smpte170m"@.len() != "bt2020"@.len());
    assert("smpte170m"@.len() != "smpte428"@.len());
    assert("smpte170m"@.len() != "smpte431"@.len());
    assert("smpte170m"@.len() != "smpte432"@.len());
    assert("smpte170m"@.len() != "ebu3213"@.len());
    assert("smpte240m"@.len() != "film"@.len());
    assert("smpte240m"@.len() != "bt2020"@.len());
    assert("smpte240m"@.len() != "smpte428"@.len());
    assert("smpte240m"@.len() != "smpte431"@.len());
    assert("smpte240m"@.len() != "smpte432"@.len());
    assert("smpte240m"@.len() != "ebu3213"@.len());
    assert("film"@.len() != "bt2020"@.len());
    assert("film"@.len() != "smpte428"@.len());
    assert("film"@.len() != "smpte431"@.len());
    assert("film"@.len() != "smpte432"@.len());
    assert("film"@.len() != "ebu3213"@.len());
    assert("bt2020"@.len() != "smpte428"@.len());
    assert("bt2020"@.len() != "smpte431"@.len());
    assert("bt2020"@.len() != "smpte432"@.len());
    assert("bt2020"@.len() != "ebu3213"@.len());
    assert("smpte428"@[6] != "smpte431"@[6]);
    assert("smpte428"@[6] != "smpte432"@[6]);
    assert("smpte428"@.len() != "ebu3213"@.len());
    assert("smpte431"@[7] != "smpte432"@[7]);
    assert("smpte431"@.len() != "ebu3213"@.len());
    assert("smpte432"@.len() != "ebu3213"@.len());
}

/// The codes for transfer characteristics are those of the names that the standard
/// gives them, and every one of these names has its code.
pub proof fn transfer_have_their_codes(s: Seq<char>)
    ensures
        code_in(transfer_codes(), s) == Some(1u32) <==> s == "bt709"@,
        code_in(transfer_codes(), s) == Some(4u32) <==> s == "gamma22"@,
        code_in(transfer_codes(), s) == Some(5u32) <==> s == "gamma28"@,
        code_in(transfer_codes(), s) == Some(6u32) <==> s == "smpte170m"@,
        code_in(transfer_codes(), s) == Some(7u32) <==> s == "smpte240m"@,
        code_in(transfer_codes(), s) == Some(8u32) <==> s == "linear"@,
        code_in(transfer_codes(), s) == Some(9u32) <==> s == "log"@,
        code_in(transfer_codes(), s) == Some(10u32) <==> s == "log_sqrt"@,
        code_in(transfer_codes(), s) == Some(11u32) <==> s == "iec61966-2-4"@,
        code_in(transfer_codes(), s) == Some(12u32) <==> s == "bt1361"@,
        code_in(transfer_codes(), s) == Some(13u32) <==> s == "iec61966-2-1"@,
        code_in(transfer_codes(), s) == Some(14u32) <==> s == "bt2020-10"@,
        code_in(transfer_codes(), s) == Some(15u32) <==> s == "bt2020-12"@,
        code_in(transfer_codes(), s) == Some(16u32) <==> s == "smpte2084"@,
        code_in(transfer_codes(), s) == Some(17u32) <==> s == "smpte428"@,
        code_in(transfer_codes(), s) == Some(18u32) <==> s == "arib-std-b67"@,
        code_in(transfer_codes(), s) is Some ==> s == "bt709"@ || s == "gamma22"@
            || s == "gamma28"@ || s == "smpte170m"@ || s == "smpte240m"@ || s == "linear"@
            || s == "log"@ || s == "log_sqrt"@ || s == "iec61966-2-4"@ || s == "bt1361"@
            || s == "iec61966-2-1"@ || s == "bt2020-10"@ || s == "bt2020-12"@ || s == "smpte2084"@
            || s == "smpte428"@ || s == "arib-std-b67"@,
{
    reveal_strlit("bt709");
    reveal_strlit("gamma22");
    reveal_strlit("gamma28");
    reveal_strlit("smpte170m");
    reveal_strlit("smpte240m");
    reveal_strlit("linear");
    reveal_strlit("log");
    reveal_strlit("log_sqrt");
    reveal_strlit("iec61966-2-4");
    reveal_strlit("bt1361");
    reveal_strlit("iec61966-2-1");
    reveal_strlit("bt2020-10");
    reveal_strlit("bt2020-12");
    reveal_strlit("smpte2084");
    reveal_strlit("smpte428");
    reveal_strlit("arib-std-b67");
    let t = transfer_codes();
    lemma_code_in(t, s);
    assert(t[0] == ("bt709"@, 1u32));
    assert(t[1] == ("gamma22"@, 4u32));
    assert(t[2] == ("gamma28"@, 5u32));
    assert(t[3] == ("smpte170m"@, 6u32));
    assert(t[4] == ("smpte240m"@, 7u32));
    assert(t[5] == ("linear"@, 8u32));
    assert(t[6] == ("log"@, 9u32));
    assert(t[7] == ("log_sqrt"@, 10u32));
    assert(t[8] == ("iec61966-2-4"@, 11u32));
    assert(t[9] == ("bt1361"@, 12u32));
    assert(t[10] == ("iec61966-2-1"@, 13u32));
    assert(t[11] == ("bt2020-10"@, 14u32));
    assert(t[12] == ("bt2020-12"@, 15u32));
    assert(t[13] == ("smpte2084"@, 16u32));
    assert(t[14] == ("smpte428"@, 17u32));
    assert(t[15] == ("arib-std-b67"@, 18u32));
    assert("bt709"@.len() != "gamma22"@.len());
    assert("bt709"@.len() != "gamma28"@.len());
    assert("bt709"@.len() != "smpte170m"@.len());
    assert("bt709"@.len() != "smpte240m"@.len());
    assert("bt709"@.len() != "linear"@.len());
    assert("bt709"@.len() != "log"@.len());
    assert("bt709"@.len() != "log_sqrt"@.len());
    assert("bt709"@.len() != "iec61966-2-4"@.len());
    assert("bt709"@.len() != "bt1361"@.len());
    assert("bt709"@.len() != "iec61966-2-1"@.len());
    assert("bt709"@.len() != "bt2020-10"@.len());
    assert("bt709"@.len() != "bt2020-12"@.len());
    assert("bt709"@.len() != "smpte2084"@.len());
    assert("bt709"@.len() != "smpte428"@.len());
    assert("bt709"@.len() != "arib-std-b67"@.len());
    assert("gamma22"@[6] != "gamma28"@[6]);
    assert("gamma22"@.len() != "smpte170m"@.len());
    assert("gamma22"@.len() != "smpte240m"@.len());
    assert("gamma22"@.len() != "linear"@.len());
    assert("gamma22"@.len() != "log"@.len());
    assert("gamma22"@.len() != "log_sqrt"@.len());
    assert("gamma22"@.len() != "iec61966-2-4"@.len());
    assert("gamma22"@.len() != "bt1361"@.len());
    assert("gamma22"@.len() != "iec61966-2-1"@.len());
    assert("gamma22"@.len() != "bt2020-10"@.len());
    assert("gamma22"@.len() != "bt2020-12"@.len());
    assert("gamma22"@.len() != "smpte2084"@.len());
    assert("gamma22"@.len() != "smpte428"@.len());
    assert("gamma22"@.len() != "arib-std-b67"@.len());
    assert("gamma28"@.len() != "smpte170m"@.len());
    assert("gamma28"@.len() != "smpte240m"@.len());
    assert("gamma28"@.len() != "linear"@.len());
    assert("gamma28"@.len() != "log"@.len());
    assert("gamma28"@.len() != "log_sqrt"@.len());
    assert("gamma28"@.len() != "iec61966-2-4"@.len());
    assert("gamma28"@.len() != "bt1361"@.len());
    assert("gamma28"@.len() != "iec61966-2-1"@.len());
    assert("gamma28"@.len() != "bt2020-10"@.len());
    assert("gamma28"@.len() != "bt2020-12"@.len());
    assert("gamma28"@.len() != "smpte2084"@.len());
    assert("gamma28"@.len() != "smpte428"@.len());
    assert("gamma28"@.len() != "arib-std-b67"@.len());
    assert("smpte170m"@[5] != "smpte240m"@[5]);
    assert("smpte170m"@.len() != "linear"@.len());
    assert("smpte170m"@.len() != "log"@.len());
    assert("smpte170m"@.len() != "log_sqrt"@.len());
    assert("smpte170m"@.len() != "iec61966-2-4"@.len());
    assert("smpte170m"@.len() != "bt1361"@.len());
    assert("smpte170m"@.len() != "iec61966-2-1"@.len());
    assert("smpte170m"@[0] != "bt2020-10"@[0]);
    assert("smpte170m"@[0] != "bt2020-12"@[0]);
    assert("smpte170m"@[5] != "smpte2084"@[5]);
    assert("smpte170m"@.len() != "smpte428"@.len());
    assert("smpte170m"@.len() != "arib-std-b67"@.len());
    assert("smpte240m"@.len() != "linear"@.len());
    assert("smpte240m"@.len() != "log"@.len());
    assert("smpte240m"@.len() != "log_sqrt"@.len());
    assert("smpte240m"@.len() != "iec61966-2-4"@.len());
    assert("smpte240m"@.len() != "bt1361"@.len());
    assert("smpte240m"@.len() != "iec61966-2-1"@.len());
    assert("smpte240m"@[0] != "bt2020-10"@[0]);
    assert("smpte240m"@[0] != "bt2020-12"@[0]);
    assert("smpte240m"@[6] != "smpte2084"@[6]);
    assert("smpte240m"@.len() != "smpte428"@.len());
    assert("smpte240m"@.len() != "arib-std-b67"@.len());
    assert("linear"@.len() != "log"@.len());
    assert("linear"@.len() != "log_sqrt"@.len());
    assert("linear"@.len() != "iec61966-2-4"@.len());
    assert("linear"@[0] != "bt1361"@[0]);
    assert("linear"@.len() != "iec61966-2-1"@.len());
    assert("linear"@.len() != "bt2020-10"@.len());
    assert("linear"@.len() != "bt2020-12"@.len());
    assert("linear"@.len() != "smpte2084"@.len());
    assert("linear"@.len() != "smpte428"@.len());
    assert("linear"@.len() != "arib-std-b67"@.len());
    assert("log"@.len() != "log_sqrt"@.len());
    assert("log"@.len() != "iec61966-2-4"@.len());
    assert("log"@.len() != "bt1361"@.len());
    assert("log"@.len() != "iec61966-2-1"@.len());
    assert("log"@.len() != "bt2020-10"@.len());
    assert("log"@.len() != "bt2020-12"@.len());
    assert("log"@.len() != "smpte2084"@.len());
    assert("log"@.len() != "smpte428"@.len());
    assert("log"@.len() != "arib-std-b67"@.len());
    assert("log_sqrt"@.len() != "iec61966-2-4"@.len());
    assert("log_sqrt"@.len() != "bt1361"@.len());
    assert("log_sqrt"@.len() != "iec61966-2-1"@.len());
    assert("log_sqrt"@.len() != "bt2020-10"@.len());
    assert("log_sqrt"@.len() != "bt2020-12"@.len());
    assert("log_sqrt"@.len() != "smpte2084"@.len());
    assert("log_sqrt"@[0] != "smpte428"@[0]);
    assert("log_sqrt"@.len() != "arib-std-b67"@.len());
    assert("iec61966-2-4"@.len() != "bt1361"@.len());
    assert("iec61966-2-4"@[11] != "iec61966-2-1"@[11]);
    assert("iec61966-2-4"@.len() != "bt2020-10"@.len());
    assert("iec61966-2-4"@.len() != "bt2020-12"@.len());
    assert("iec61966-2-4"@.len() != "smpte2084"@.len());
    assert("iec61966-2-4"@.len() != "smpte428"@.len());
    assert("iec61966-2-4"@[0] != "arib-std-b67"@[0]);
    assert("bt1361"@.len() != "iec61966-2-1"@.len());
    assert("bt1361"@.len() != "bt2020-10"@.len());
    assert("bt1361"@.len() != "bt2020-12"@.len());
    assert("bt1361"@.len() != "smpte2084"@.len());
    assert("bt1361"@.len() != "smpte428"@.len());
    assert("bt1361"@.len() != "arib-std-b67"@.len());
    assert("iec61966-2-1"@.len() != "bt2020-10"@.len());
    assert("iec61966-2-1"@.len() != "bt2020-12"@.len());
    assert("iec61966-2-1"@.len() != "smpte2084"@.len());
    assert("iec61966-2-1"@.len() != "smpte428"@.len());
    assert("iec61966-2-1"@[0] != "arib-std-b67"@[0]);
    assert("bt2020-10"@[8] != "bt2020-12"@[8]);
    assert("bt2020-10"@[0] != "smpte2084"@[0]);
    assert("bt2020-10"@.len() != "smpte428"@.len());
    assert("bt2020-10"@.len() != "arib-std-b67"@.len());
    assert("bt2020-12"@[0] != "smpte2084"@[0]);
    assert("bt2020-12"@.len() != "smpte428"@.len());
    assert("bt2020-12"@.len() != "arib-std-b67"@.len());
    assert("smpte2084"@.len() != "smpte428"@.len());
    assert("smpte2084"@.len() != "arib-std-b67"@.len());
    assert("smpte428"@.len() != "arib-std-b67"@.len());
}

/// The codes for matrix coefficients are those of the names that the standard gives
/// them, and every one of these names has its code.
pub proof fn matrix_have_their_codes(s: Seq<char>)
    ensures
        code_in(matrix_codes(), s) == Some(0u32) <==> s == "gbr"@,
        code_in(matrix_codes(), s) == Some(1u32) <==> s == "bt709"@,
        code_in(matrix_codes(), s) == Some(4u32) <==> s == "fcc"@,
        code_in(matrix_codes(), s) == Some(5u32) <==> s == "bt470bg"@,
        code_in(matrix_codes(), s) == Some(6u32) <==> s == "smpte170m"@,
        code_in(matrix_codes(), s) == Some(7u32) <==> s == "smpte240m"@,
        code_in(matrix_codes(), s) == Some(8u32) <==> s == "ycgco"@,
        code_in(matrix_codes(), s) == Some(9u32) <==> s == "bt2020nc"@,
        code_in(matrix_codes(), s) == Some(10u32) <==> s == "bt2020c"@,
        code_in(matrix_codes(), s) == Some(11u32) <==> s == "smpte2085"@,
        code_in(matrix_codes(), s) == Some(12u32) <==> s == "chroma-derived-nc"@,
        code_in(matrix_codes(), s) == Some(13u32) <==> s == "chroma-derived-c"@,
        code_in(matrix_codes(), s) == Some(14u32) <==> s == "ictcp"@,
        code_in(matrix_codes(), s) is Some ==> s == "gbr"@ || s == "bt709"@ || s == "fcc"@
            || s == "bt470bg"@ || s == "smpte170m"@ || s == "smpte240m"@ || s == "ycgco"@
            || s == "bt2020nc"@ || s == "bt2020c"@ || s == "smpte2085"@
            || s == "chroma-derived-nc"@ || s == "chroma-derived-c"@ || s == "ictcp"@,
{
    reveal_strlit("gbr");
    reveal_strlit("bt709");
    reveal_strlit("fcc");
    reveal_strlit("bt470bg");
    reveal_strlit("smpte170m");
    reveal_strlit("smpte240m");
    reveal_strlit("ycgco");
    reveal_strlit("bt2020nc");
    reveal_strlit("bt2020c");
    reveal_strlit("smpte2085");
    reveal_strlit("chroma-derived-nc");
    reveal_strlit("chroma-derived-c");
    reveal_strlit("ictcp");
    let t = matrix_codes();
    lemma_code_in(t, s);
    assert(t[0] == ("gbr"@, 0u32));
    assert(t[1] == ("bt709"@, 1u32));
    assert(t[2] == ("fcc"@, 4u32));
    assert(t[3] == ("bt470bg"@, 5u32));
    assert(t[4] == ("smpte170m"@, 6u32));
    assert(t[5] == ("smpte240m"@, 7u32));
    assert(t[6] == ("ycgco"@, 8u32));
    assert(t[7] == ("bt2020nc"@, 9u32));
    assert(t[8] == ("bt2020c"@, 10u32));
    assert(t[9] == ("smpte2085"@, 11u32));
    assert(t[10] == ("chroma-derived-nc"@, 12u32));
    assert(t[11] == ("chroma-derived-c"@, 13u32));
    assert(t[12] == ("ictcp"@, 14u32));
    assert("gbr"@.len() != "bt709"@.len());
    assert("gbr"@[0] != "fcc"@[0]);
    assert("gbr"@.len() != "bt470bg"@.len());
    assert("gbr"@.len() != "smpte170m"@.len());
    assert("gbr"@.len() != "smpte240m"@.len());
    assert("gbr"@.len() != "ycgco"@.len());
    assert("gbr"@.len() != "bt2020nc"@.len());
    assert("gbr"@.len() != "bt2020c"@.len());
    assert("gbr"@.len() != "smpte2085"@.len());
    assert("gbr"@.len() != "chroma-derived-nc"@.len());
    assert("gbr"@.len() != "chroma-derived-c"@.len());
    assert("gbr"@.len() != "ictcp"@.len());
    assert("bt709"@.len() != "fcc"@.len());
    assert("bt709"@.len() != "bt470bg"@.len());
    assert("bt709"@.len() != "smpte170m"@.len());
    assert("bt709"@.len() != "smpte240m"@.len());
    assert("bt709"@[0] != "ycgco"@[0]);
    assert("bt709"@.len() != "bt2020nc"@.len());
    assert("bt709"@.len() != "bt2020c"@.len());
    assert("bt709"@.len() != "smpte2085"@.len());
    assert("bt709"@.len() != "chroma-derived-nc"@.len());
    assert("bt709"@.len() != "chroma-derived-c"@.len());
    assert("bt709"@[0] != "ictcp"@[0]);
    assert("fcc"@.len() != "bt470bg"@.len());
    assert("fcc"@.len() != "smpte170m"@.len());
    assert("fcc"@.len() != "smpte240m"@.len());
    assert("fcc"@.len() != "ycgco"@.len());
    assert("fcc"@.len() != "bt2020nc"@.len());
    assert("fcc"@.len() != "bt2020c"@.len());
    assert("fcc"@.len() != "smpte2085"@.len());
    assert("fcc"@.len() != "chroma-derived-nc"@.len());
    assert("fcc"@.len() != "chroma-derived-c"@.len());
    assert("fcc"@.len() != "ictcp"@.len());
    assert("bt470bg"@.len() != "smpte170m"@.len());
    assert("bt470bg"@.len() != "smpte240m"@.len());
    assert("bt470bg"@.len() != "ycgco"@.len());
    assert("bt470bg"@.len() != "bt2020nc"@.len());
    assert("bt470bg"@[2] != "bt2020c"@[2]);
    assert("bt470bg"@.len() != "smpte2085"@.len());
    assert("bt470bg"@.len() != "chroma-derived-nc"@.len());
    assert("bt470bg"@.len() != "chroma-derived-c"@.len());
    assert("bt470bg"@.len() != "ictcp"@.len());
    assert("smpte170m"@[5] != "smpte240m"@[5]);
    assert("smpte170m"@.len() != "ycgco"@.len());
    assert("smpte170m"@.len() != "bt2020nc"@.len());
    assert("smpte170m"@.len() != "bt2020c"@.len());
    assert("smpte170m"@[5] != "smpte2085"@[5]);
    assert("smpte170m"@.len() != "chroma-derived-nc"@.len());
    assert("smpte170m"@.len() != "chroma-derived-c"@.len());
    assert("smpte170m"@.len() != "ictcp"@.len());
    assert("smpte240m"@.len() != "ycgco"@.len());
    assert("smpte240m"@.len() != "bt2020nc"@.len());
    assert("smpte240m"@.len() != "bt2020c"@.len());
    assert("smpte240m"@[6] != "smpte2085"@[6]);
    assert("smpte240m"@.len() != "chroma-derived-nc"@.len());
    assert("smpte240m"@.len() != "chroma-derived-c"@.len());
    assert("smpte240m"@.len() != "ictcp"@.len());
    assert("ycgco"@.len() != "bt2020nc"@.len());
    assert("ycgco"@.len() != "bt2020c"@.len());
    assert("ycgco"@.len() != "smpte2085"@.len());
    assert("ycgco"@.len() != "chroma-derived-nc"@.len());
    assert("ycgco"@.len() != "chroma-derived-c"@.len());
    assert("ycgco"@[0] != "ictcp"@[0]);
    assert("bt2020nc"@.len() != "bt2020c"@.len());
    assert("bt2020nc"@.len() != "smpte2085"@.len());
    assert("bt2020nc"@.len() != "chroma-derived-nc"@.len());
    assert("bt2020nc"@.len() != "chroma-derived-c"@.len());
    assert("bt2020nc"@.len() != "ictcp"@.len());
    assert("bt2020c"@.len() != "smpte2085"@.len());
    assert("bt2020c"@.len() != "chroma-derived-nc"@.len());
    assert("bt2020c"@.len() != "chroma-derived-c"@.len());
    assert("bt2020c"@.len() != "ictcp"@.len());
    assert("smpte2085"@.len() != "chroma-derived-nc"@.len());
    assert("smpte2085"@.len() != "chroma-derived-c"@.len());
    assert("smpte2085"@.len() != "ictcp"@.len());
    assert("chroma-derived-nc"@.len() != "chroma-derived-c"@.len());
    assert("chroma-derived-nc"@.len() != "ictcp"@.len());
    assert("chroma-derived-c"@.len() != "ictcp"@.len());
}

/// The codes for positions of chroma samples are those of the names that the standard
/// gives them, and every one of these names has its code.
pub proof fn chroma_have_their_codes(s: Seq<char>)
    ensures
        code_in(chroma_codes(), s) == Some(1u32) <==> s == "left"@,
        code_in(chroma_codes(), s) == Some(2u32) <==> s == "topleft"@,
        code_in(chroma_codes(), s) is Some ==> s == "left"@ || s == "topleft"@,
{
    reveal_strlit("left");
    reveal_strlit("topleft");
    let t = chroma_codes();
    lemma_code_in(t, s);
    assert(t[0] == ("left"@, 1u32));
    assert(t[1] == ("topleft"@, 2u32));
    assert("left"@.len() != "topleft"@.len());
}

/// The codes for ranges of samples are those of the names that the standard gives
/// them, and every one of these names has its code.
pub proof fn range_have_their_codes(s: Seq<char>)
    ensures
        code_in(range_codes(), s) == Some(0u32) <==> s == "tv"@,
        code_in(range_codes(), s) == Some(1u32) <==> s == "pc"@,
        code_in(range_codes(), s) is Some ==> s == "tv"@ || s == "pc"@,
{
    reveal_strlit("tv");
    reveal_strlit("pc");
    let t = range_codes();
    lemma_code_in(t, s);
    assert(t[0] == ("tv"@, 0u32));
    assert(t[1] == ("pc"@, 1u32));
    assert("tv"@[0] != "pc"@[0]);
}

/// The kind of HDR is told by the most telling sign there is: Dolby Vision metadata
/// comes before dynamic metadata, and both before the transfer, which alone tells
/// HDR10 from HLG and both from SDR.
pub proof fn hdr_kinds_are_told_by_their_signs(probe: HdrProbe)
    ensures
        ({
            let side = probe.side_data@;
            let dolby = exists|i: int|
                0 <= i < side.len() && (has_substring(
                    folded((#[trigger] side[i]).kind@),
                    "dovi"@,
                ) || has_substring(folded(side[i].kind@), "dolby"@));
            let dynamic = exists|i: int|
                0 <= i < side.len() && (has_substring(
                    folded((#[trigger] side[i]).kind@),
                    "hdr10+"@,
                ) || has_substring(folded(side[i].kind@), "hdr_dynamic"@));
            &&& dolby ==> hdr_kind(probe) == "Dolby Vision"@
            &&& !dolby && dynamic ==> hdr_kind(probe) == "HDR10+"@
            &&& !dolby && !dynamic && probe.color_transfer@ == "smpte2084"@ ==> hdr_kind(probe)
                == "HDR10"@
            &&& !dolby && !dynamic && probe.color_transfer@ == "arib-std-b67"@ ==> hdr_kind(probe)
                == "HLG"@
            &&& !dolby && !dynamic && probe.color_transfer@ != "smpte2084"@
                && probe.color_transfer@ != "arib-std-b67"@ ==> hdr_kind(probe) == "SDR"@
        }),
{
    reveal_strlit("smpte2084");
    reveal_strlit("arib-std-b67");
    assert("smpte2084"@.len() != "arib-std-b67"@.len());
    let side = probe.side_data@;
    assert forall|i: int| 0 <= i < side.len() && has_substring(
        folded((#[trigger] side[i]).kind@),
        "dovi"@,
    ) implies has_kind(side, "dovi"@) by {}
    assert forall|i: int| 0 <= i < side.len() && has_substring(
        folded((#[trigger] side[i]).kind@),
        "dolby"@,
    ) implies has_kind(side, "dolby"@) by {}
    assert forall|i: int| 0 <= i < side.len() && has_substring(
        folded((#[trigger] side[i]).kind@),
        "hdr10+"@,
    ) implies has_kind(side, "hdr10+"@) by {}
    assert forall|i: int| 0 <= i < side.len() && has_substring(
        folded((#[trigger] side[i]).kind@),
        "hdr_dynamic"@,
    ) implies has_kind(side, "hdr_dynamic"@) by {}
}

/// The arguments that an option with its value takes, where it is set.
pub open spec fn known(set: bool) -> int {
    if set {
        2
    } else {
        0
    }
}

/// Everything that is known of the colours of a source reaches the encoder under its
/// own option, and nothing else does.
#[verifier::spinoff_prover]
pub proof fn known_colours_reach_the_encoder(info: HdrInfo)
    ensures
        info.color_primaries matches Some(v) ==> sets(
            info.args(),
            "--color-primaries"@,
            dec(v as nat),
        ),
        info.transfer_characteristics matches Some(v) ==> sets(
            info.args(),
            "--transfer-characteristics"@,
            dec(v as nat),
        ),
        info.matrix_coefficients matches Some(v) ==> sets(
            info.args(),
            "--matrix-coefficients"@,
            dec(v as nat),
        ),
        info.chroma_sample_position matches Some(v) ==> sets(
            info.args(),
            "--chroma-sample-position"@,
            dec(v as nat),
        ),
        info.color_range matches Some(v) ==> sets(info.args(), "--color-range"@, dec(v as nat)),
        info.content_light_level matches Some(v) ==> sets(info.args(), "--content-light"@, v@),
        info.mastering_display matches Some(v) ==> sets(info.args(), "--mastering-display"@, v@),
        info.args().len() == known(info.color_primaries is Some) + known(
            info.transfer_characteristics is Some,
        ) + known(info.matrix_coefficients is Some) + known(
            info.chroma_sample_position is Some,
        ) + known(info.color_range is Some) + known(info.content_light_level is Some) + known(
            info.mastering_display is Some,
        ),
{
    let p1 = number_arg("--color-primaries"@, info.color_primaries);
    let p2 = number_arg("--transfer-characteristics"@, info.transfer_characteristics);
    let p3 = number_arg("--matrix-coefficients"@, info.matrix_coefficients);
    let p4 = number_arg("--chroma-sample-position"@, info.chroma_sample_position);
    let p5 = number_arg("--color-range"@, info.color_range);
    let p6 = text_arg("--content-light"@, opt_view(info.content_light_level));
    let p7 = text_arg("--mastering-display"@, opt_view(info.mastering_display));
    assert(info.args() == p1 + p2 + p3 + p4 + p5 + p6 + p7);
    if let Some(v) = info.color_primaries {
        lemma_pair_reaches("--color-primaries"@, dec(v as nat), Seq::empty(), p2, p3, p4, p5, p6, p7);
        assert(Seq::<Seq<char>>::empty() + p1 =~= p1);
    }
    if let Some(v) = info.transfer_characteristics {
        lemma_pair_reaches("--transfer-characteristics"@, dec(v as nat), p1, p3, p4, p5, p6, p7, Seq::empty());
        assert(p1 + p2 + p3 + p4 + p5 + p6 + p7 + Seq::<Seq<char>>::empty() =~= info.args());
    }
    if let Some(v) = info.matrix_coefficients {
        lemma_pair_reaches("--matrix-coefficients"@, dec(v as nat), p1 + p2, p4, p5, p6, p7, Seq::empty(), Seq::empty());
        assert(p1 + p2 + p3 + p4 + p5 + p6 + p7 + Seq::<Seq<char>>::empty() + Seq::<Seq<char>>::empty() =~= info.args());
    }
    if let Some(v) = info.chroma_sample_position {
        lemma_sets_one("--chroma-sample-position"@, dec(v as nat));
        lemma_sets_back(p1 + p2 + p3, p4, "--chroma-sample-position"@, dec(v as nat));
        lemma_sets_front(p1 + p2 + p3 + p4, p5, "--chroma-sample-position"@, dec(v as nat));
        lemma_sets_front(p1 + p2 + p3 + p4 + p5, p6, "--chroma-sample-position"@, dec(v as nat));
        lemma_sets_front(p1 + p2 + p3 + p4 + p5 + p6, p7, "--chroma-sample-position"@, dec(v as nat));
    }
    if let Some(v) = info.color_range {
        lemma_sets_one("--color-range"@, dec(v as nat));
        lemma_sets_back(p1 + p2 + p3 + p4, p5, "--color-range"@, dec(v as nat));
        lemma_sets_front(p1 + p2 + p3 + p4 + p5, p6, "--color-range"@, dec(v as nat));
        lemma_sets_front(p1 + p2 + p3 + p4 + p5 + p6, p7, "--color-range"@, dec(v as nat));
    }
    if let Some(v) = info.content_light_level {
        lemma_sets_one("--content-light"@, v@);
        lemma_sets_back(p1 + p2 + p3 + p4 + p5, p6, "--content-light"@, v@);
        lemma_sets_front(p1 + p2 + p3 + p4 + p5 + p6, p7, "--content-light"@, v@);
    }
    if let Some(v) = info.mastering_display {
        lemma_sets_one("--mastering-display"@, v@);
        lemma_sets_back(p1 + p2 + p3 + p4 + p5 + p6, p7, "--mastering-display"@, v@);
    }
}

proof fn lemma_sets_one(flag: Seq<char>, value: Seq<char>)
    ensures
        sets(seq![flag, value], flag, value),
{
    let pair = seq![flag, value];
    assert(pair[0] == flag && pair[0int + 1] == value);
}

proof fn lemma_pair_reaches(
    flag: Seq<char>,
    value: Seq<char>,
    a: Seq<Seq<char>>,
    b: Seq<Seq<char>>,
    c: Seq<Seq<char>>,
    d: Seq<Seq<char>>,
    e: Seq<Seq<char>>,
    f: Seq<Seq<char>>,
    g: Seq<Seq<char>>,
)
    ensures
        sets(a + seq![flag, value] + b + c + d + e + f + g, flag, value),
{
    lemma_sets_one(flag, value);
    let p = seq![flag, value];
    lemma_sets_back(a, p, flag, value);
    lemma_sets_front(a + p, b, flag, value);
    lemma_sets_front(a + p + b, c, flag, value);
    lemma_sets_front(a + p + b + c, d, flag, value);
    lemma_sets_front(a + p + b + c + d, e, flag, value);
    lemma_sets_front(a + p + b + c + d + e, f, flag, value);
    lemma_sets_front(a + p + b + c + d + e + f, g, flag, value);
}

/// The mastering display is written in the order and with the letters that the
/// encoder reads: green, blue, red, white point, then the greatest and the least
/// luminance.
pub proof fn displays_are_written_as_the_encoder_reads_them(m: MasteringDisplay)
    ensures
        m.text() == "G("@ + m.green.0@ + ","@ + m.green.1@ + ")B("@ + m.blue.0@ + ","@ + m.blue.1@
            + ")R("@ + m.red.0@ + ","@ + m.red.1@ + ")WP("@ + m.white_point.0@ + ","@
            + m.white_point.1@ + ")L("@ + m.luminance.0@ + ","@ + m.luminance.1@ + ")"@,
{
    reveal_strlit("(");
    reveal_strlit(")");
    reveal_strlit("G");
    reveal_strlit("B");
    reveal_strlit("R");
    reveal_strlit("WP");
    reveal_strlit("L");
    reveal_strlit("G(");
    reveal_strlit(")B(");
    reveal_strlit(")R(");
    reveal_strlit(")WP(");
    reveal_strlit(")L(");
    assert("G("@ =~= "G"@ + "("@);
    assert(")B("@ =~= ")"@ + "B"@ + "("@);
    assert(")R("@ =~= ")"@ + "R"@ + "("@);
    assert(")WP("@ =~= ")"@ + "WP"@ + "("@);
    assert(")L("@ =~= ")"@ + "L"@ + "("@);
    assert(m.text() =~= "G("@ + m.green.0@ + ","@ + m.green.1@ + ")B("@ + m.blue.0@ + ","@
        + m.blue.1@ + ")R("@ + m.red.0@ + ","@ + m.red.1@ + ")WP("@ + m.white_point.0@ + ","@
        + m.white_point.1@ + ")L("@ + m.luminance.0@ + ","@ + m.luminance.1@ + ")"@);
}

/// What a probe reports reaches the description of the source, each under its own name,
/// and a source is refused exactly when it is Dolby Vision without a base layer.
pub proof fn reported_colours_are_described(
    probe: &HdrProbe,
    r: Result<HdrInfo, HdrError>,
)
    requires
        call_ensures(describe_hdr, (probe,), r),
    ensures
        r is Ok <==> !(probe.dolby_vision_profile matches Some(p) && p == 5),
        r matches Ok(info) ==> {
            &&& info.hdr_type@ == hdr_kind(*probe)
            &&& probe.color_primaries@ == "bt2020"@ ==> info.color_primaries == Some(9u32)
            &&& probe.color_transfer@ == "smpte2084"@ ==> info.transfer_characteristics == Some(
                16u32,
            )
            &&& probe.color_transfer@ == "arib-std-b67"@ ==> info.transfer_characteristics == Some(
                18u32,
            )
            &&& probe.color_space@ == "bt2020nc"@ ==> info.matrix_coefficients == Some(9u32)
            &&& probe.chroma_location@ == "topleft"@ ==> info.chroma_sample_position == Some(2u32)
            &&& probe.chroma_location@ == "left"@ ==> info.chroma_sample_position == Some(1u32)
            &&& probe.color_range@ == "tv"@ ==> info.color_range == Some(0u32)
            &&& probe.color_range@ == "pc"@ ==> info.color_range == Some(1u32)
            &&& opt_view(info.content_light_level) == first_light(probe.side_data@)
            &&& opt_view(info.mastering_display) == first_mastering(probe.side_data@)
        },
{
    primaries_have_their_codes(probe.color_primaries@);
    transfer_have_their_codes(probe.color_transfer@);
    matrix_have_their_codes(probe.color_space@);
    chroma_have_their_codes(probe.chroma_location@);
    range_have_their_codes(probe.color_range@);
}

/// A source is HDR exactly when it has a kind, and that is not SDR.
pub proof fn sdr_is_no_hdr(info: HdrInfo)
    ensures
        info.hdr_type@ == "SDR"@ || info.hdr_type@ == ""@ ==> !info.hdr(),
        info.hdr_type@ == "Dolby Vision"@ || info.hdr_type@ == "HDR10+"@ || info.hdr_type@
            == "HDR10"@ || info.hdr_type@ == "HLG"@ ==> info.hdr(),
{
    reveal_strlit("");
    reveal_strlit("SDR");
    reveal_strlit("Dolby Vision");
    reveal_strlit("HDR10+");
    reveal_strlit("HDR10");
    reveal_strlit("HLG");
    assert("SDR"@[0] == 'S' && "HLG"@[0] == 'H');
    assert("SDR"@.len() == 3 && "Dolby Vision"@.len() == 12 && "HDR10+"@.len() == 6);
    assert("HDR10"@.len() == 5);
}

/// A number that is reported as text counts like the number, and what is no number counts
/// as zero.
pub proof fn numbers_may_be_reported_as_text(n: i64, text: String)
    requires
        text@ == dec_int(n as int),
    ensures
        int_of(JsonScalar::Int(n)) == n,
        int_of(JsonScalar::Str(text)) == n,
        int_of(JsonScalar::Other) == 0,
{
    crate::number::parse_of_dec_int(n as int);
}

/// Metadata is missed only of an HDR source that is not HLG, and then exactly what it
/// lacks.
pub proof fn missing_metadata_is_named(info: HdrInfo)
    ensures
        ({
            let expected = info.hdr() && info.hdr_type@ != "HLG"@;
            let missing = missing_of(info);
            &&& missing.contains("MaxCLL/MaxFALL"@) <==> expected && info.content_light_level
                is None
            &&& missing.contains("Mastering Display"@) <==> expected && info.mastering_display
                is None
        }),
{
    reveal_strlit("MaxCLL/MaxFALL");
    reveal_strlit("Mastering Display");
    assert("MaxCLL/MaxFALL"@.len() != "Mastering Display"@.len());
    let missing = missing_of(info);
    if missing.len() > 0 {
        assert(missing[0] == "MaxCLL/MaxFALL"@ || missing[0] == "Mastering Display"@);
    }
    if missing.len() > 1 {
        assert(missing[1] == "Mastering Display"@);
    }
    if info.hdr() && info.hdr_type@ != "HLG"@ {
        if info.content_light_level is None {
            assert(missing[0] == "MaxCLL/MaxFALL"@);
        }
        if info.mastering_display is None {
            assert(missing[missing.len() - 1] == "Mastering Display"@);
        }
    }
}

/// Of Dolby Vision and of HDR10+ only the base layer is encoded, of the others all there
/// is.
pub proof fn dynamic_metadata_is_dropped(info: &HdrInfo, r: bool)
    requires
        call_ensures(falls_back_to_base_layer, (info,), r),
    ensures
        info.hdr_type@ == "Dolby Vision"@ || info.hdr_type@ == "HDR10+"@ ==> r,
        info.hdr_type@ == "HDR10"@ || info.hdr_type@ == "HLG"@ || info.hdr_type@ == "SDR"@ ==> !r,
{
    reveal_strlit("SDR");
    reveal_strlit("Dolby Vision");
    reveal_strlit("HDR10+");
    reveal_strlit("HDR10");
    reveal_strlit("HLG");
    assert("SDR"@.len() == 3 && "Dolby Vision"@.len() == 12 && "HDR10+"@.len() == 6);
    assert("HDR10"@.len() == 5 && "HLG"@.len() == 3);
}

} // verus!
