//! Audio tracks: which are kept, what becomes of each, and the command lines
//! for that and for putting the output together.
use vstd::prelude::*;

use crate::config::{
    arg_of, bitrate_for, bitrate_under, codec_is_lossless, codec_under, language_kept,
    language_selected, mode_under, options_under, output_is_lossless,
    override_for, toml_value_to_arg, AudioConfig, AudioMode, Config, ParamValue,
};
use crate::number::{dec, dec_u64};
use crate::strmap::StrMap;
use crate::text::{
    as_opt_str, clone_opt, contains, has_prefix, has_substring, lines, lines_of, opt_str, opt_view,
    plus, push_str, push_string, starts_with, str_eq, views, words, words_of,
};
use crate::validate::{accepted_audio_can_be_encoded, config_problem};

verus! {

/// A set of codec names.
#[derive(Debug)]
pub struct CodecSet {
    names: StrMap<bool>,
}

impl View for CodecSet {
    type V = Set<Seq<char>>;

    closed spec fn view(&self) -> Set<Seq<char>> {
        self.names@.dom()
    }
}

impl CodecSet {
    pub fn new() -> (r: Self)
        ensures
            r@ == Set::<Seq<char>>::empty(),
    {
        let r = CodecSet { names: StrMap::new() };
        assert(r@ =~= Set::<Seq<char>>::empty());
        r
    }

    pub fn insert(&mut self, name: &str)
        ensures
            final(self)@ == old(self)@.insert(name@),
    {
        self.names.insert(name.to_owned(), true);
        assert(self@ =~= old(self)@.insert(name@));
    }

    pub fn contains(&self, name: &str) -> (r: bool)
        ensures
            r == self@.contains(name@),
    {
        self.names.contains_key(name)
    }
}

/// The lossless audio codec that a line of the codec list names. The flags that
/// begin a line tell the kind of the codec in their third byte and whether it
/// can be lossless in the sixth.
pub open spec fn lossless_codec_of(line: Seq<char>) -> Option<Seq<char>> {
    let fields = words_of(line);
    if fields.len() < 2 {
        None
    } else {
        let flags = vstd::utf8::encode_utf8(fields[0]);
        if flags.len() >= 6 && flags[2] == 65 && flags[5] == 83 {
            Some(fields[1])
        } else {
            None
        }
    }
}

/// The lossless audio codecs that a list of lines names.
pub open spec fn lossless_codecs_of(lines: Seq<Seq<char>>) -> Set<Seq<char>>
    decreases lines.len(),
{
    if lines.len() == 0 {
        Set::empty()
    } else {
        match lossless_codec_of(lines.last()) {
            Some(name) => lossless_codecs_of(lines.drop_last()).insert(name),
            None => lossless_codecs_of(lines.drop_last()),
        }
    }
}

/// The lossless audio codecs in the list that `ffmpeg -codecs` prints.
pub fn parse_lossless_codecs(stdout: &str) -> (r: CodecSet)
    ensures
        r@ == lossless_codecs_of(lines_of(stdout@)),
{
    let all = lines(stdout);
    let ghost ls = lines_of(stdout@);
    let mut set = CodecSet::new();
    let mut i: usize = 0;
    assert(ls.take(0) =~= Seq::<Seq<char>>::empty());
    while i < all.len()
        invariant
            i <= all@.len(),
            ls == views(all@),
            set@ == lossless_codecs_of(ls.take(i as int)),
        decreases all@.len() - i,
    {
        assert(ls.take(i + 1).drop_last() =~= ls.take(i as int));
        assert(ls.take(i + 1).last() == all@[i as int]@);
        let fields = words(all[i].as_str());
        let ghost ws = words_of(all@[i as int]@);
        assert(ws.len() == fields@.len());
        if fields.len() >= 2 {
            assert(ws[0] == fields@[0]@ && ws[1] == fields@[1]@);
            let flags = fields[0].as_str().as_bytes();
            if flags.len() >= 6 && flags[2] == 65 && flags[5] == 83 {
                set.insert(fields[1].as_str());
            }
        }
        i += 1;
    }
    assert(ls.take(i as int) =~= ls);
    set
}

/// The lossless codecs that are known without asking.
pub open spec fn known_lossless() -> Seq<Seq<char>> {
    seq![
        "truehd"@,
        "mlp"@,
        "flac"@,
        "alac"@,
        "ape"@,
        "tta"@,
        "wavpack"@,
        "tak"@,
        "shorten"@,
        "ralf"@,
        "wmalossless"@,
        "mp4als"@,
        "als"@,
        "dts"@,
    ]
}

/// The set to use where the list of codecs cannot be had.
pub fn fallback_lossless_codecs() -> (r: CodecSet)
    ensures
        r@ == known_lossless().to_set(),
{
    let names: [&'static str; 14] = [
        "truehd",
        "mlp",
        "flac",
        "alac",
        "ape",
        "tta",
        "wavpack",
        "tak",
        "shorten",
        "ralf",
        "wmalossless",
        "mp4als",
        "als",
        "dts",
    ];
    let ghost known = known_lossless();
    assert(forall|k: int| 0 <= k < 14 ==> #[trigger] known[k] == names@[k]@);
    let mut set = CodecSet::new();
    let mut i: usize = 0;
    assert(known.take(0).to_set() =~= Set::<Seq<char>>::empty());
    while i < 14
        invariant
            i <= 14,
            known == known_lossless(),
            known.len() == 14,
            forall|k: int| 0 <= k < 14 ==> #[trigger] known[k] == names@[k]@,
            set@ == known.take(i as int).to_set(),
        decreases 14 - i,
    {
        assert(known[i as int] == names@[i as int]@);
        set.insert(names[i]);
        proof {
            let a = known.take(i as int);
            let b = known.take(i + 1);
            assert(b =~= a.push(known[i as int]));
            assert forall|s: Seq<char>| a.to_set().insert(known[i as int]).contains(s)
                == b.to_set().contains(s) by {
                if a.contains(s) {
                    let k = a.index_of(s);
                    assert(b[k] == s);
                }
                if s == known[i as int] {
                    assert(b[i as int] == s);
                }
                if b.contains(s) {
                    let k = b.index_of(s);
                    if k < i {
                        assert(a[k] == s);
                    }
                }
            }
            assert(b.to_set() =~= a.to_set().insert(known[i as int]));
        }
        i += 1;
    }
    assert(known.take(14) =~= known);
    set
}

/// The source of a track is lossless. PCM always is, and DTS only in its
/// Master Audio profile, since both kinds of it have one name.
pub open spec fn source_is_lossless(
    codec: Seq<char>,
    profile: Option<Seq<char>>,
    lossless: Set<Seq<char>>,
) -> bool {
    if codec == "dts"@ {
        profile is Some && has_substring(profile.unwrap(), "MA"@)
    } else {
        has_prefix(codec, "pcm_"@) || lossless.contains(codec)
    }
}

pub fn is_lossless(codec_name: &str, profile: Option<&str>, lossless: &CodecSet) -> (r: bool)
    ensures
        r == source_is_lossless(codec_name@, opt_str(profile), lossless@),
{
    if str_eq(codec_name, "dts") {
        return match profile {
            Some(p) => contains(p, "MA"),
            None => false,
        };
    }
    starts_with(codec_name, "pcm_") || lossless.contains(codec_name)
}

/// The name under which a codec is shown.
pub open spec fn display_of(codec: Seq<char>) -> Seq<char> {
    if codec == "libopus"@ || codec == "opus"@ {
        "Opus"@
    } else if codec == "flac"@ {
        "FLAC"@
    } else if codec == "aac"@ || codec == "libfdk_aac"@ {
        "AAC"@
    } else if codec == "ac3"@ {
        "AC3"@
    } else if codec == "eac3"@ {
        "E-AC-3"@
    } else if codec == "libmp3lame"@ || codec == "mp3"@ {
        "MP3"@
    } else if codec == "alac"@ {
        "ALAC"@
    } else if codec == "libvorbis"@ || codec == "vorbis"@ {
        "Vorbis"@
    } else {
        codec
    }
}

pub fn codec_display(codec: &str) -> (r: &str)
    ensures
        r@ == display_of(codec@),
{
    if str_eq(codec, "libopus") || str_eq(codec, "opus") {
        "Opus"
    } else if str_eq(codec, "flac") {
        "FLAC"
    } else if str_eq(codec, "aac") || str_eq(codec, "libfdk_aac") {
        "AAC"
    } else if str_eq(codec, "ac3") {
        "AC3"
    } else if str_eq(codec, "eac3") {
        "E-AC-3"
    } else if str_eq(codec, "libmp3lame") || str_eq(codec, "mp3") {
        "MP3"
    } else if str_eq(codec, "alac") {
        "ALAC"
    } else if str_eq(codec, "libvorbis") || str_eq(codec, "vorbis") {
        "Vorbis"
    } else {
        codec
    }
}

/// What the source says a track is meant for; zero stands for no.
#[derive(Debug, Clone, Copy, PartialEq, Eq, Structural)]
pub struct FfprobeDisposition {
    pub default: i32,
    pub forced: i32,
    pub hearing_impaired: i32,
    pub visual_impaired: i32,
    pub original: i32,
    pub comment: i32,
}

impl Default for FfprobeDisposition {
    fn default() -> (r: Self)
        ensures
            r == (FfprobeDisposition {
                default: 0,
                forced: 0,
                hearing_impaired: 0,
                visual_impaired: 0,
                original: 0,
                comment: 0,
            }),
    {
        FfprobeDisposition {
            default: 0,
            forced: 0,
            hearing_impaired: 0,
            visual_impaired: 0,
            original: 0,
            comment: 0,
        }
    }
}

/// A flag of mkvmerge for the track `tid`, where the source has it.
pub open spec fn set_flag(flag: Seq<char>, tid: nat, value: i32) -> Seq<Seq<char>> {
    if value != 0 {
        seq![flag, dec(tid) + ":yes"@]
    } else {
        Seq::empty()
    }
}

/// The flags of mkvmerge for the track `tid`. Whether it is a default track is
/// always said, since mkvmerge would else take it for one.
pub open spec fn disposition_flags(d: FfprobeDisposition, tid: nat) -> Seq<Seq<char>> {
    seq![
        "--default-track-flag"@,
        dec(tid) + ":"@ + (if d.default != 0 {
            "yes"@
        } else {
            "no"@
        }),
    ] + set_flag("--forced-display-flag"@, tid, d.forced) + set_flag(
        "--hearing-impaired-flag"@,
        tid,
        d.hearing_impaired,
    ) + set_flag("--visual-impaired-flag"@, tid, d.visual_impaired) + set_flag(
        "--original-flag"@,
        tid,
        d.original,
    ) + set_flag("--commentary-flag"@, tid, d.comment)
}

fn push_flag(flags: &mut Vec<String>, flag: &str, tid: usize, value: i32)
    ensures
        views(final(flags)@) == views(old(flags)@) + set_flag(flag@, tid as nat, value),
{
    let ghost before = views(flags@);
    if value != 0 {
        push_str(flags, flag);
        push_string(flags, plus(dec_u64(tid as u64), ":yes"));
        assert(views(flags@) =~= before + seq![flag@, dec(tid as nat) + ":yes"@]);
    } else {
        assert(before + Seq::<Seq<char>>::empty() =~= before);
    }
}

impl FfprobeDisposition {
    pub fn to_mkvmerge_flags(&self, tid: usize) -> (r: Vec<String>)
        ensures
            views(r@) == disposition_flags(*self, tid as nat),
    {
        let mut flags: Vec<String> = Vec::new();
        push_str(&mut flags, "--default-track-flag");
        let yes = if self.default != 0 {
            "yes"
        } else {
            "no"
        };
        push_string(&mut flags, plus(plus(dec_u64(tid as u64), ":"), yes));
        assert(views(flags@) =~= seq![
            "--default-track-flag"@,
            dec(tid as nat) + ":"@ + yes@,
        ]);
        push_flag(&mut flags, "--forced-display-flag", tid, self.forced);
        push_flag(&mut flags, "--hearing-impaired-flag", tid, self.hearing_impaired);
        push_flag(&mut flags, "--visual-impaired-flag", tid, self.visual_impaired);
        push_flag(&mut flags, "--original-flag", tid, self.original);
        push_flag(&mut flags, "--commentary-flag", tid, self.comment);
        flags
    }
}

/// An audio track of the source; `audio_index` is its number among them.
#[derive(Debug)]
pub struct AudioTrack {
    pub audio_index: usize,
    pub codec_name: String,
    pub profile: Option<String>,
    pub channels: Option<u32>,
    pub language: Option<String>,
    pub title: Option<String>,
}

/// True when the track's language is on the whitelist.
pub fn track_passes_whitelist(track: &AudioTrack, whitelist: &[String]) -> (r: bool)
    ensures
        r == language_kept(views(whitelist@), opt_view(track.language)),
{
    language_selected(whitelist, as_opt_str(&track.language))
}

/// What becomes of a track.
#[derive(Debug)]
pub enum Action {
    Copy,
    Encode { codec: String, bitrate: Option<String>, options: Vec<(String, String)> },
}

/// The mathematical counterpart of [`Action`].
pub enum TrackAction {
    Copy,
    Encode {
        codec: Seq<char>,
        bitrate: Option<Seq<char>>,
        options: Seq<(Seq<char>, Seq<char>)>,
    },
}

pub open spec fn pairs_view(v: Seq<(String, String)>) -> Seq<(Seq<char>, Seq<char>)> {
    Seq::new(v.len(), |i: int| (v[i].0@, v[i].1@))
}

impl View for Action {
    type V = TrackAction;

    open spec fn view(&self) -> TrackAction {
        match *self {
            Action::Copy => TrackAction::Copy,
            Action::Encode { codec, bitrate, options } => TrackAction::Encode {
                codec: codec@,
                bitrate: opt_view(bitrate),
                options: pairs_view(options@),
            },
        }
    }
}

/// A track of the output: the track of the source that it comes from, and what
/// becomes of it.
#[derive(Debug)]
pub struct PlannedTrack {
    pub audio_index: usize,
    pub codec_name: String,
    pub channels: Option<u32>,
    pub language: Option<String>,
    pub title: Option<String>,
    pub lossless: bool,
    pub action: Action,
}

/// The mathematical counterpart of [`PlannedTrack`].
pub struct TrackPlan {
    pub audio_index: nat,
    pub codec: Seq<char>,
    pub channels: Option<u32>,
    pub language: Option<Seq<char>>,
    pub title: Option<Seq<char>>,
    pub lossless: bool,
    pub action: TrackAction,
}

impl View for PlannedTrack {
    type V = TrackPlan;

    open spec fn view(&self) -> TrackPlan {
        TrackPlan {
            audio_index: self.audio_index as nat,
            codec: self.codec_name@,
            channels: self.channels,
            language: opt_view(self.language),
            title: opt_view(self.title),
            lossless: self.lossless,
            action: self.action@,
        }
    }
}

/// The audio tracks of the output, in their order.
#[derive(Debug)]
pub struct AudioPlan {
    pub tracks: Vec<PlannedTrack>,
}

impl View for AudioPlan {
    type V = Seq<TrackPlan>;

    open spec fn view(&self) -> Seq<TrackPlan> {
        Seq::new(self.tracks@.len(), |i: int| self.tracks@[i]@)
    }
}

/// The tracks whose language is on the whitelist.
pub open spec fn kept_tracks(
    tracks: Seq<AudioTrack>,
    whitelist: Seq<Seq<char>>,
) -> Seq<AudioTrack>
    decreases tracks.len(),
{
    if tracks.len() == 0 {
        Seq::empty()
    } else if language_kept(whitelist, opt_view(tracks.last().language)) {
        kept_tracks(tracks.drop_last(), whitelist).push(tracks.last())
    } else {
        kept_tracks(tracks.drop_last(), whitelist)
    }
}

/// The options of an encode in the order of their names.
pub open spec fn option_list(options: StrMap<ParamValue>) -> Seq<(Seq<char>, Seq<char>)> {
    Seq::new(
        options.keys().len(),
        |i: int| (options.keys()[i], arg_of(options.values()[i])),
    )
}

/// What becomes of a track under the settings that apply to it; none where it
/// is to be encoded and the settings name no codec.
pub open spec fn action_for(
    track: AudioTrack,
    config: AudioConfig,
    lossless: bool,
) -> Option<TrackAction> {
    let over = override_for(config, track.codec_name@, lossless);
    if mode_under(config, over) == AudioMode::Copy {
        Some(TrackAction::Copy)
    } else {
        match codec_under(config, over) {
            None => None,
            Some(codec) => Some(
                TrackAction::Encode {
                    codec,
                    bitrate: if codec_is_lossless(codec) {
                        None
                    } else {
                        match bitrate_under(config, over) {
                            Some(bitrate) => bitrate_for(bitrate, track.channels),
                            None => None,
                        }
                    },
                    options: option_list(options_under(config, over)),
                },
            ),
        }
    }
}

pub open spec fn track_plan(
    track: AudioTrack,
    config: AudioConfig,
    lossless_codecs: Set<Seq<char>>,
) -> Option<TrackPlan> {
    let lossless = source_is_lossless(track.codec_name@, opt_view(track.profile), lossless_codecs);
    match action_for(track, config, lossless) {
        None => None,
        Some(action) => Some(
            TrackPlan {
                audio_index: track.audio_index as nat,
                codec: track.codec_name@,
                channels: track.channels,
                language: opt_view(track.language),
                title: opt_view(track.title),
                lossless,
                action,
            },
        ),
    }
}

/// The plan for a list of tracks, or the number of the first track that is to
/// be encoded without a codec.
pub open spec fn plan_for(
    kept: Seq<AudioTrack>,
    config: AudioConfig,
    lossless_codecs: Set<Seq<char>>,
) -> Result<Seq<TrackPlan>, nat>
    decreases kept.len(),
{
    if kept.len() == 0 {
        Ok(Seq::empty())
    } else {
        match plan_for(kept.drop_last(), config, lossless_codecs) {
            Err(n) => Err(n),
            Ok(plans) => match track_plan(kept.last(), config, lossless_codecs) {
                Some(plan) => Ok(plans.push(plan)),
                None => Err(kept.last().audio_index as nat),
            },
        }
    }
}

/// A track is to be encoded, but no codec is set for it.
#[derive(Debug, Clone, Copy, PartialEq, Eq, Structural)]
pub struct CodecNotSet {
    pub audio_index: usize,
}

impl CodecNotSet {
    pub fn message(&self) -> (r: String)
        ensures
            r@ == "audio track "@ + dec(self.audio_index as nat)
                + ": codec is required when mode = encode"@,
    {
        let r = plus("audio track ".to_owned(), dec_u64(self.audio_index as u64).as_str());
        plus(r, ": codec is required when mode = encode")
    }
}

fn options_of(options: &StrMap<ParamValue>) -> (r: Vec<(String, String)>)
    ensures
        pairs_view(r@) == option_list(*options),
{
    let count: usize = options.len();
    let mut r: Vec<(String, String)> = Vec::new();
    let mut i: usize = 0;
    while i < count
        invariant
            i <= count,
            count == options.keys().len(),
            r@.len() == i,
            forall|k: int|
                0 <= k < i ==> (#[trigger] r@[k]).0@ == options.keys()[k] && r@[k].1@ == arg_of(
                    options.values()[k],
                ),
        decreases count - i,
    {
        r.push((options.key_at(i).clone(), toml_value_to_arg(options.value_at(i))));
        i += 1;
    }
    assert(pairs_view(r@) =~= option_list(*options));
    r
}

fn resolve_action(track: &AudioTrack, config: &AudioConfig, lossless: bool) -> (r: Option<Action>)
    ensures
        match r {
            Some(action) => action_for(*track, *config, lossless) == Some(action@),
            None => action_for(*track, *config, lossless) is None,
        },
{
    let s = config.resolve(track.codec_name.as_str(), lossless);
    if s.mode == AudioMode::Copy {
        return Some(Action::Copy);
    }
    let codec = match s.codec {
        Some(codec) => codec,
        None => {
            return None;
        },
    };
    let bitrate = if output_is_lossless(codec) {
        None
    } else {
        match s.bitrate {
            Some(b) => match b.resolve(track.channels) {
                Some(text) => Some(text.to_owned()),
                None => None,
            },
            None => None,
        }
    };
    let options = options_of(s.options);
    Some(Action::Encode { codec: codec.to_owned(), bitrate, options })
}

/// Decides for every track of the source whether it is kept and what becomes of
/// it. `lossless_codecs` holds the codecs that lose nothing.
pub fn plan(tracks: &[AudioTrack], config: &AudioConfig, lossless_codecs: &CodecSet) -> (r: Result<
    AudioPlan,
    CodecNotSet,
>)
    ensures
        match plan_for(
            kept_tracks(tracks@, views(config.language_whitelist@)),
            *config,
            lossless_codecs@,
        ) {
            Ok(plans) => r matches Ok(plan) && plan@ == plans,
            Err(n) => r matches Err(e) && e.audio_index == n,
        },
{
    let ghost whitelist = views(config.language_whitelist@);
    let mut planned: Vec<PlannedTrack> = Vec::new();
    let ghost mut plans: Seq<TrackPlan> = Seq::empty();
    let mut i: usize = 0;
    while i < tracks.len()
        invariant
            i <= tracks@.len(),
            whitelist == views(config.language_whitelist@),
            plan_for(kept_tracks(tracks@.take(i as int), whitelist), *config, lossless_codecs@)
                == Ok::<Seq<TrackPlan>, nat>(plans),
            planned@.len() == plans.len(),
            forall|k: int| 0 <= k < plans.len() ==> (#[trigger] planned@[k])@ == plans[k],
        decreases tracks@.len() - i,
    {
        let track = &tracks[i];
        let ghost before = kept_tracks(tracks@.take(i as int), whitelist);
        assert(tracks@.take(i + 1).drop_last() =~= tracks@.take(i as int));
        assert(tracks@.take(i + 1).last() == *track);
        if track_passes_whitelist(track, config.language_whitelist.as_slice()) {
            assert(before.push(*track).drop_last() =~= before);
            let lossless = is_lossless(
                track.codec_name.as_str(),
                as_opt_str(&track.profile),
                lossless_codecs,
            );
            match resolve_action(track, config, lossless) {
                None => {
                    proof {
                        assert(plan_for(
                            kept_tracks(tracks@.take(i + 1), whitelist),
                            *config,
                            lossless_codecs@,
                        ) == Err::<Seq<TrackPlan>, nat>(track.audio_index as nat));
                        lemma_first_failure(tracks@, i + 1, whitelist, *config, lossless_codecs@);
                    }
                    return Err(CodecNotSet { audio_index: track.audio_index });
                },
                Some(action) => {
                    let p = PlannedTrack {
                        audio_index: track.audio_index,
                        codec_name: track.codec_name.clone(),
                        channels: track.channels,
                        language: clone_opt(&track.language),
                        title: clone_opt(&track.title),
                        lossless,
                        action,
                    };
                    proof {
                        plans = plans.push(p@);
                    }
                    planned.push(p);
                },
            }
        }
        i += 1;
    }
    assert(tracks@.take(i as int) =~= tracks@);
    let r = AudioPlan { tracks: planned };
    assert(r@ =~= plans);
    Ok(r)
}

/// A track without a codec among the first ones is the one that is reported.
proof fn lemma_first_failure(
    tracks: Seq<AudioTrack>,
    n: int,
    whitelist: Seq<Seq<char>>,
    config: AudioConfig,
    lossless_codecs: Set<Seq<char>>,
)
    requires
        0 <= n <= tracks.len(),
        plan_for(kept_tracks(tracks.take(n), whitelist), config, lossless_codecs) is Err,
    ensures
        plan_for(kept_tracks(tracks, whitelist), config, lossless_codecs) == plan_for(
            kept_tracks(tracks.take(n), whitelist),
            config,
            lossless_codecs,
        ),
    decreases tracks.len(),
{
    if n == tracks.len() {
        assert(tracks.take(n) =~= tracks);
    } else {
        let init = tracks.drop_last();
        assert(init.take(n) =~= tracks.take(n));
        lemma_first_failure(init, n, whitelist, config, lossless_codecs);
        let kept = kept_tracks(init, whitelist);
        assert(kept.push(tracks.last()).drop_last() =~= kept);
    }
}

/// A plan has one track for each that is kept, in their order.
pub proof fn plans_follow_the_kept_tracks(
    kept: Seq<AudioTrack>,
    config: AudioConfig,
    lossless_codecs: Set<Seq<char>>,
)
    ensures
        plan_for(kept, config, lossless_codecs) matches Ok(plans) ==> plans.len() == kept.len()
            && forall|i: int|
            0 <= i < kept.len() ==> track_plan(kept[i], config, lossless_codecs) == Some(
                #[trigger] plans[i],
            ),
    decreases kept.len(),
{
    if kept.len() > 0 {
        plans_follow_the_kept_tracks(kept.drop_last(), config, lossless_codecs);
        if let Ok(plans) = plan_for(kept, config, lossless_codecs) {
            let before = plan_for(kept.drop_last(), config, lossless_codecs)->Ok_0;
            assert forall|i: int| 0 <= i < kept.len() implies track_plan(
                kept[i],
                config,
                lossless_codecs,
            ) == Some(#[trigger] plans[i]) by {
                if i < kept.len() - 1 {
                    assert(plans[i] == before[i]);
                    assert(kept.drop_last()[i] == kept[i]);
                }
            }
        }
    }
}

/// Under an accepted profile every source has a plan.
pub proof fn accepted_profiles_plan_every_source(
    c: Config,
    kept: Seq<AudioTrack>,
    lossless_codecs: Set<Seq<char>>,
)
    requires
        config_problem(c) is None,
    ensures
        plan_for(kept, c.audio, lossless_codecs) is Ok,
    decreases kept.len(),
{
    if kept.len() > 0 {
        accepted_profiles_plan_every_source(c, kept.drop_last(), lossless_codecs);
        let track = kept.last();
        let lossless = source_is_lossless(
            track.codec_name@,
            opt_view(track.profile),
            lossless_codecs,
        );
        accepted_audio_can_be_encoded(c, track.codec_name@, lossless);
    }
}

/// A track is kept exactly when its language is on the whitelist, so tracks
/// without a language always are.
pub proof fn kept_tracks_are_those_on_the_whitelist(
    tracks: Seq<AudioTrack>,
    whitelist: Seq<Seq<char>>,
    track: AudioTrack,
)
    ensures
        kept_tracks(tracks, whitelist).contains(track) <==> tracks.contains(track)
            && language_kept(whitelist, opt_view(track.language)),
    decreases tracks.len(),
{
    if tracks.len() > 0 {
        let init = tracks.drop_last();
        let last = tracks.last();
        let before = kept_tracks(init, whitelist);
        kept_tracks_are_those_on_the_whitelist(init, whitelist, track);
        if tracks.contains(track) {
            let k = tracks.index_of(track);
            if k < init.len() {
                assert(init[k] == track);
            }
        }
        if init.contains(track) {
            let k = init.index_of(track);
            assert(tracks[k] == track);
        }
        if track == last {
            assert(tracks[tracks.len() - 1] == track);
        }
        if language_kept(whitelist, opt_view(last.language)) {
            let after = before.push(last);
            if before.contains(track) {
                let k = before.index_of(track);
                assert(after[k] == track);
            }
            if track == last {
                assert(after[before.len() as int] == track);
            }
            if after.contains(track) {
                let k = after.index_of(track);
                if k < before.len() {
                    assert(before[k] == track);
                }
            }
        }
    }
}

/// The name stands in the list of codecs on a line whose flags call it an audio
/// codec that can be lossless.
pub open spec fn listed_as_lossless(lines: Seq<Seq<char>>, name: Seq<char>) -> bool {
    exists|i: int|
        0 <= i < lines.len() && words_of(#[trigger] lines[i]).len() >= 2 && words_of(lines[i])[1]
            == name && vstd::utf8::encode_utf8(words_of(lines[i])[0]).len() >= 6
            && vstd::utf8::encode_utf8(words_of(lines[i])[0])[2] == 65 && vstd::utf8::encode_utf8(
            words_of(lines[i])[0],
        )[5] == 83
}

/// A codec is taken for lossless exactly when some line of the list says so.
pub proof fn listed_codecs_are_lossless(lines: Seq<Seq<char>>, name: Seq<char>)
    ensures
        lossless_codecs_of(lines).contains(name) <==> listed_as_lossless(lines, name),
    decreases lines.len(),
{
    if lines.len() > 0 {
        let init = lines.drop_last();
        listed_codecs_are_lossless(init, name);
        let n = lines.len() - 1;
        assert(lines[n] == lines.last());
        if listed_as_lossless(init, name) {
            let i = choose|i: int|
                0 <= i < init.len() && words_of(#[trigger] init[i]).len() >= 2 && words_of(
                    init[i],
                )[1] == name && vstd::utf8::encode_utf8(words_of(init[i])[0]).len() >= 6
                    && vstd::utf8::encode_utf8(words_of(init[i])[0])[2] == 65
                    && vstd::utf8::encode_utf8(words_of(init[i])[0])[5] == 83;
            assert(init[i] == lines[i]);
        }
        if listed_as_lossless(lines, name) {
            let i = choose|i: int|
                0 <= i < lines.len() && words_of(#[trigger] lines[i]).len() >= 2 && words_of(
                    lines[i],
                )[1] == name && vstd::utf8::encode_utf8(words_of(lines[i])[0]).len() >= 6
                    && vstd::utf8::encode_utf8(words_of(lines[i])[0])[2] == 65
                    && vstd::utf8::encode_utf8(words_of(lines[i])[0])[5] == 83;
            if i < n {
                assert(init[i] == lines[i]);
            }
        }
    }
}

/// DTS is lossless by its profile alone, whatever the list of codecs says of its
/// name; PCM always is; and of the others the list decides.
pub proof fn lossless_sources_are_told(
    codec: Seq<char>,
    profile: Option<Seq<char>>,
    lossless: Set<Seq<char>>,
)
    ensures
        codec == "dts"@ ==> source_is_lossless(codec, profile, lossless) == (match profile {
            Some(p) => has_substring(p, "MA"@),
            None => false,
        }),
        codec != "dts"@ && has_prefix(codec, "pcm_"@) ==> source_is_lossless(
            codec,
            profile,
            lossless,
        ),
        codec != "dts"@ && !has_prefix(codec, "pcm_"@) ==> source_is_lossless(
            codec,
            profile,
            lossless,
        ) == lossless.contains(codec),
{
}

/// The kept tracks stand in the order of the source, and none is kept twice: the
/// last track, if it is kept, comes last, and the others are kept as without it.
pub proof fn kept_tracks_keep_their_order(
    tracks: Seq<AudioTrack>,
    track: AudioTrack,
    whitelist: Seq<Seq<char>>,
)
    ensures
        language_kept(whitelist, opt_view(track.language)) ==> kept_tracks(
            tracks.push(track),
            whitelist,
        ) == kept_tracks(tracks, whitelist).push(track),
        !language_kept(whitelist, opt_view(track.language)) ==> kept_tracks(
            tracks.push(track),
            whitelist,
        ) == kept_tracks(tracks, whitelist),
        whitelist.len() == 0 ==> kept_tracks(tracks, whitelist) == tracks,
    decreases tracks.len(),
{
    assert(tracks.push(track).drop_last() =~= tracks);
    if tracks.len() > 0 {
        kept_tracks_keep_their_order(tracks.drop_last(), track, whitelist);
        if whitelist.len() == 0 {
            assert(tracks.drop_last().push(tracks.last()) =~= tracks);
        }
    } else {
        assert(kept_tracks(tracks, whitelist) =~= tracks);
    }
}

/// What becomes of a track is what the setting that is nearest to it says: a rule for
/// its codec, or else the settings for lossless sources, where it is one, or else
/// those of the profile; and each that sets nothing leaves it to the next. A codec
/// that loses nothing gets no bitrate.
pub proof fn the_nearest_setting_decides(
    track: AudioTrack,
    config: AudioConfig,
    lossless: bool,
)
    ensures
        ({
            let rule = if config.codec_rules@.contains_key(track.codec_name@) {
                Some(config.codec_rules@[track.codec_name@])
            } else if lossless {
                config.lossless
            } else {
                None
            };
            let mode = match rule {
                Some(o) => match o.mode {
                    Some(m) => m,
                    None => config.mode,
                },
                None => config.mode,
            };
            let codec = match rule {
                Some(o) => match o.codec {
                    Some(c) => Some(c@),
                    None => opt_view(config.codec),
                },
                None => opt_view(config.codec),
            };
            let bitrate = match rule {
                Some(o) => match o.bitrate {
                    Some(b) => Some(b),
                    None => config.bitrate,
                },
                None => config.bitrate,
            };
            let r = action_for(track, config, lossless);
            &&& mode == AudioMode::Copy ==> r == Some(TrackAction::Copy)
            &&& mode == AudioMode::Encode && codec is None ==> r is None
            &&& mode == AudioMode::Encode && codec is Some ==> (r matches Some(
                TrackAction::Encode { codec: c, bitrate: b, options: _ },
            ) && c == codec.unwrap() && (codec_is_lossless(c) ==> b is None) && (
            !codec_is_lossless(c) ==> b == (match bitrate {
                Some(rate) => bitrate_for(rate, track.channels),
                None => None,
            })))
        }),
{
}

/// The flags of a track say of each of its purposes whether the source has it: that
/// it is a default track is always said, and each of the others exactly where it is
/// set.
pub proof fn purposes_are_passed_on(d: FfprobeDisposition, tid: nat)
    ensures
        ({
            let flags = disposition_flags(d, tid);
            let yes = dec(tid) + ":yes"@;
            let n1 = flag_len(d.forced);
            let n2 = n1 + flag_len(d.hearing_impaired);
            let n3 = n2 + flag_len(d.visual_impaired);
            let n4 = n3 + flag_len(d.original);
            &&& flags[0] == "--default-track-flag"@
            &&& d.default != 0 ==> flags[1] == yes
            &&& d.default == 0 ==> flags[1] == dec(tid) + ":no"@
            &&& flags.len() == 2 + n4 + flag_len(d.comment)
            &&& d.forced != 0 ==> flags[2] == "--forced-display-flag"@ && flags[3] == yes
            &&& d.hearing_impaired != 0 ==> flags[2 + n1] == "--hearing-impaired-flag"@ && flags[3
                + n1] == yes
            &&& d.visual_impaired != 0 ==> flags[2 + n2] == "--visual-impaired-flag"@ && flags[3
                + n2] == yes
            &&& d.original != 0 ==> flags[2 + n3] == "--original-flag"@ && flags[3 + n3] == yes
            &&& d.comment != 0 ==> flags[2 + n4] == "--commentary-flag"@ && flags[3 + n4] == yes
        }),
{
    reveal_strlit(":");
    reveal_strlit("yes");
    reveal_strlit("no");
    reveal_strlit(":yes");
    reveal_strlit(":no");
    assert(dec(tid) + ":"@ + "yes"@ =~= dec(tid) + ":yes"@);
    assert(dec(tid) + ":"@ + "no"@ =~= dec(tid) + ":no"@);
}

/// The arguments that a flag takes, where it is set.
pub open spec fn flag_len(value: i32) -> int {
    if value != 0 {
        2
    } else {
        0
    }
}

/// These codecs are known to lose nothing without asking, and no others.
pub proof fn lossless_codecs_are_known_without_asking(name: Seq<char>)
    ensures
        known_lossless().to_set().contains(name) <==> {
            ||| name == "truehd"@
            ||| name == "mlp"@
            ||| name == "flac"@
            ||| name == "alac"@
            ||| name == "ape"@
            ||| name == "tta"@
            ||| name == "wavpack"@
            ||| name == "tak"@
            ||| name == "shorten"@
            ||| name == "ralf"@
            ||| name == "wmalossless"@
            ||| name == "mp4als"@
            ||| name == "als"@
            ||| name == "dts"@
        },
{
    let list = known_lossless();
    assert(list[0] == "truehd"@);
    assert(list[1] == "mlp"@);
    assert(list[2] == "flac"@);
    assert(list[3] == "alac"@);
    assert(list[4] == "ape"@);
    assert(list[5] == "tta"@);
    assert(list[6] == "wavpack"@);
    assert(list[7] == "tak"@);
    assert(list[8] == "shorten"@);
    assert(list[9] == "ralf"@);
    assert(list[10] == "wmalossless"@);
    assert(list[11] == "mp4als"@);
    assert(list[12] == "als"@);
    assert(list[13] == "dts"@);
    assert(list.to_set().contains(name) <==> list.contains(name));
}

/// An encoder is shown under the name of its codec, whichever of the names it goes by;
/// any other under its own.
pub proof fn codecs_are_shown_by_their_names(codec: Seq<char>)
    ensures
        codec == "libopus"@ ==> display_of(codec) == "Opus"@,
        codec == "opus"@ ==> display_of(codec) == "Opus"@,
        codec == "flac"@ ==> display_of(codec) == "FLAC"@,
        codec == "aac"@ ==> display_of(codec) == "AAC"@,
        codec == "libfdk_aac"@ ==> display_of(codec) == "AAC"@,
        codec == "ac3"@ ==> display_of(codec) == "AC3"@,
        codec == "eac3"@ ==> display_of(codec) == "E-AC-3"@,
        codec == "libmp3lame"@ ==> display_of(codec) == "MP3"@,
        codec == "mp3"@ ==> display_of(codec) == "MP3"@,
        codec == "alac"@ ==> display_of(codec) == "ALAC"@,
        codec == "libvorbis"@ ==> display_of(codec) == "Vorbis"@,
        codec == "vorbis"@ ==> display_of(codec) == "Vorbis"@,
        codec != "libopus"@
            && codec != "opus"@
            && codec != "flac"@
            && codec != "aac"@
            && codec != "libfdk_aac"@
            && codec != "ac3"@
            && codec != "eac3"@
            && codec != "libmp3lame"@
            && codec != "mp3"@
            && codec != "alac"@
            && codec != "libvorbis"@
            && codec != "vorbis"@ ==> display_of(codec) == codec,
{
    reveal_strlit("libopus");
    reveal_strlit("opus");
    reveal_strlit("flac");
    reveal_strlit("aac");
    reveal_strlit("libfdk_aac");
    reveal_strlit("ac3");
    reveal_strlit("eac3");
    reveal_strlit("libmp3lame");
    reveal_strlit("mp3");
    reveal_strlit("alac");
    reveal_strlit("libvorbis");
    reveal_strlit("vorbis");
    assert("libopus"@.len() == 7 && "opus"@.len() == 4 && "flac"@.len() == 4 && "aac"@.len() == 3);
    assert("libfdk_aac"@.len() == 10 && "ac3"@.len() == 3 && "eac3"@.len() == 4);
    assert("libmp3lame"@.len() == 10 && "mp3"@.len() == 3 && "alac"@.len() == 4);
    assert("libvorbis"@.len() == 9 && "vorbis"@.len() == 6);
    assert("opus"@[0] == 'o' && "flac"@[0] == 'f' && "eac3"@[0] == 'e' && "alac"@[0] == 'a');
    assert("aac"@[1] == 'a' && "ac3"@[1] == 'c' && "mp3"@[0] == 'm' && "aac"@[0] == 'a');
    assert("ac3"@[0] == 'a' && "libfdk_aac"@[3] == 'f' && "libmp3lame"@[3] == 'm');
}

/// The options of an encode are those of the setting that is nearest to the track, but
/// one without any leaves them to the profile; each is passed under its name with its
/// value, in the order of the names.
pub proof fn options_come_from_one_table(track: AudioTrack, config: AudioConfig, lossless: bool)
    ensures
        action_for(track, config, lossless) matches Some(
            TrackAction::Encode { codec: _, bitrate: _, options },
        ) ==> {
            let rule = if config.codec_rules@.contains_key(track.codec_name@) {
                Some(config.codec_rules@[track.codec_name@])
            } else if lossless {
                config.lossless
            } else {
                None
            };
            let table = match rule {
                Some(o) => if o.options.keys().len() > 0 {
                    o.options
                } else {
                    config.options
                },
                None => config.options,
            };
            &&& options.len() == table.keys().len()
            &&& forall|i: int|
                0 <= i < options.len() ==> (#[trigger] options[i]).0 == table.keys()[i]
                    && options[i].1 == arg_of(table.values()[i])
        },
{
}

/// A track of the output says of its source what the source says of itself.
pub proof fn planned_tracks_keep_what_they_are(
    track: AudioTrack,
    config: AudioConfig,
    lossless_codecs: Set<Seq<char>>,
)
    ensures
        track_plan(track, config, lossless_codecs) matches Some(p) ==> {
            &&& p.audio_index == track.audio_index
            &&& p.codec == track.codec_name@
            &&& p.channels == track.channels
            &&& p.language == opt_view(track.language)
            &&& p.title == opt_view(track.title)
            &&& p.lossless == source_is_lossless(
                track.codec_name@,
                opt_view(track.profile),
                lossless_codecs,
            )
            &&& action_for(track, config, p.lossless) == Some(p.action)
        },
{
}

/// Where a track has no plan, for want of a codec, there is none for the source: and the
/// first such track is named.
pub proof fn the_first_track_without_a_codec_is_named(
    kept: Seq<AudioTrack>,
    config: AudioConfig,
    lossless_codecs: Set<Seq<char>>,
    i: int,
)
    requires
        0 <= i <= kept.len(),
        forall|k: int| 0 <= k < i ==> track_plan(#[trigger] kept[k], config, lossless_codecs) is Some,
        i < kept.len() ==> track_plan(kept[i], config, lossless_codecs) is None,
    ensures
        i == kept.len() ==> plan_for(kept, config, lossless_codecs) is Ok,
        i < kept.len() ==> plan_for(kept, config, lossless_codecs) == Err::<Seq<TrackPlan>, nat>(
            kept[i].audio_index as nat,
        ),
    decreases kept.len(),
{
    if kept.len() > 0 {
        let init = kept.drop_last();
        assert(kept[kept.len() - 1] == kept.last());
        if i < init.len() {
            assert(init[i] == kept[i]);
            assert forall|k: int| 0 <= k < i implies track_plan(
                #[trigger] init[k],
                config,
                lossless_codecs,
            ) is Some by {
                assert(init[k] == kept[k]);
            }
            the_first_track_without_a_codec_is_named(init, config, lossless_codecs, i);
        } else {
            assert forall|k: int| 0 <= k < init.len() implies track_plan(
                #[trigger] init[k],
                config,
                lossless_codecs,
            ) is Some by {
                assert(init[k] == kept[k]);
            }
            the_first_track_without_a_codec_is_named(
                init,
                config,
                lossless_codecs,
                init.len() as int,
            );
        }
    }
}

} // verus!
