//! The command lines with which a chunk is encoded and the chunks are joined.
use vstd::prelude::*;

use crate::config::{Config, Encoder};
use crate::ffms2::Crop;
use crate::number::{dec, dec_injective, dec_u64, is_digit, lemma_dec_digits};
use crate::text::{
    find, from_chars, lemma_find, lemma_find_is, lemma_sets_back, lemma_sets_front, lines_of, plus,
    push_str, push_string, quiet, sets, sets_behind, str_eq, to_chars, views,
};

verus! {

/// What a single encode sets in place of the profile. `crf` is a decimal number,
/// as it is handed to the encoder.
#[derive(Debug)]
pub struct EncodeOverrides {
    pub crf: Option<String>,
    pub preset: Option<u32>,
}

impl Default for EncodeOverrides {
    fn default() -> (r: Self)
        ensures
            r.crf is None,
            r.preset is None,
    {
        EncodeOverrides { crf: None, preset: None }
    }
}

/// What a job has found out about its source for the encoder.
#[derive(Debug)]
pub struct EncodeOptions {
    /// Encoder flags for the colours of an HDR source, each followed by its
    /// value.
    pub hdr_args: Vec<String>,
    /// The distance of key frames, unless the profile sets it.
    pub keyint: Option<u32>,
    /// The size to scale to after the crop.
    pub scale: Option<(u32, u32)>,
    /// The part of the source that is kept.
    pub crop: Option<Crop>,
    pub fps_num: u32,
    pub fps_den: u32,
    /// The bit depth to convert to; none to keep the one of the source.
    pub target_bit_depth: Option<u8>,
}

impl Default for EncodeOptions {
    fn default() -> (r: Self)
        ensures
            r.hdr_args@.len() == 0,
            r.keyint is None,
            r.scale is None,
            r.crop is None,
            r.fps_num == 0,
            r.fps_den == 0,
            r.target_bit_depth is None,
    {
        EncodeOptions {
            hdr_args: Vec::new(),
            keyint: None,
            scale: None,
            crop: None,
            fps_num: 0,
            fps_den: 0,
            target_bit_depth: None,
        }
    }
}

pub open spec fn binary_of(enc: Encoder) -> Seq<char> {
    match enc {
        Encoder::SvtAv1 => "SvtAv1EncApp"@,
        Encoder::SvtAv1Hdr => "SvtAv1EncApp-hdr"@,
    }
}

/// The program that encodes.
pub fn encoder_binary(enc: Encoder) -> (r: &'static str)
    ensures
        r@ == binary_of(enc),
{
    match enc {
        Encoder::SvtAv1 => "SvtAv1EncApp",
        Encoder::SvtAv1Hdr => "SvtAv1EncApp-hdr",
    }
}

/// How a number of quarter steps is written as a decimal fraction.
pub open spec fn quarters_text(quarters: nat) -> Seq<char> {
    dec(quarters / 4) + (if quarters % 4 == 0 {
        ""@
    } else if quarters % 4 == 1 {
        ".25"@
    } else if quarters % 4 == 2 {
        ".5"@
    } else {
        ".75"@
    })
}

pub fn crf_text(quarters: u32) -> (r: String)
    ensures
        r@ == quarters_text(quarters as nat),
{
    let fraction = match quarters % 4 {
        0 => "",
        1 => ".25",
        2 => ".5",
        _ => ".75",
    };
    plus(dec_u64((quarters / 4) as u64), fraction)
}

/// CRFs that differ are written differently.
pub proof fn crf_texts_differ(a: nat, b: nat)
    requires
        quarters_text(a) == quarters_text(b),
    ensures
        a == b,
{
    reveal_strlit("");
    reveal_strlit(".25");
    reveal_strlit(".5");
    reveal_strlit(".75");
    let x = quarters_text(a);
    let y = quarters_text(b);
    let p = dec(a / 4);
    let q = dec(b / 4);
    lemma_dec_digits(a / 4);
    lemma_dec_digits(b / 4);
    assert(forall|i: int| 0 <= i < p.len() ==> is_digit(p[i]) && x[i] == p[i]);
    assert(forall|i: int| 0 <= i < q.len() ==> is_digit(q[i]) && y[i] == q[i]);
    assert(p.len() < x.len() ==> x[p.len() as int] == '.');
    assert(q.len() < y.len() ==> y[q.len() as int] == '.');
    assert(p.len() == q.len());
    assert(p =~= q) by {
        assert forall|i: int| 0 <= i < p.len() implies p[i] == q[i] by {
            assert(x[i] == y[i]);
        }
    }
    dec_injective(a / 4, b / 4);
    let n = p.len() as int;
    assert(a % 4 == b % 4) by {
        assert(x.len() > n + 1 ==> x[n + 1] == y[n + 1]);
        assert(a % 4 == 0 ==> x.len() == n);
        assert(a % 4 == 1 ==> x[n + 1] == '2');
        assert(a % 4 == 2 ==> x[n + 1] == '5');
        assert(a % 4 == 3 ==> x[n + 1] == '7');
        assert(b % 4 == 0 ==> y.len() == n);
        assert(b % 4 == 1 ==> y[n + 1] == '2');
        assert(b % 4 == 2 ==> y[n + 1] == '5');
        assert(b % 4 == 3 ==> y[n + 1] == '7');
    }
}

/// The position of the first argument that is `flag`, or the number of them.
pub open spec fn position_of(args: Seq<Seq<char>>, flag: Seq<char>) -> int
    decreases args.len(),
{
    if args.len() == 0 || args[0] == flag {
        0
    } else {
        1 + position_of(args.skip(1), flag)
    }
}

/// The arguments with `flag` set to `value`: what follows its first occurrence
/// is replaced, or else both are put at the end.
pub open spec fn with_arg(
    args: Seq<Seq<char>>,
    flag: Seq<char>,
    value: Seq<char>,
) -> Seq<Seq<char>> {
    let i = position_of(args, flag);
    if i + 1 < args.len() {
        args.update(i + 1, value)
    } else {
        args.push(flag).push(value)
    }
}

proof fn lemma_position(args: Seq<Seq<char>>, flag: Seq<char>)
    ensures
        0 <= position_of(args, flag) <= args.len(),
        position_of(args, flag) < args.len() ==> args[position_of(args, flag)] == flag,
        forall|i: int| 0 <= i < position_of(args, flag) ==> #[trigger] args[i] != flag,
    decreases args.len(),
{
    if args.len() == 0 || args[0] == flag {
    } else {
        let t = args.skip(1);
        lemma_position(t, flag);
        assert forall|i: int| 0 <= i < position_of(args, flag) implies #[trigger] args[i]
            != flag by {
            if i > 0 {
                assert(t[i - 1] == args[i]);
            }
        }
        if position_of(args, flag) < args.len() {
            assert(t[position_of(t, flag)] == args[position_of(args, flag)]);
        }
    }
}

proof fn lemma_position_is(args: Seq<Seq<char>>, flag: Seq<char>, n: int)
    requires
        0 <= n <= args.len(),
        forall|i: int| 0 <= i < n ==> #[trigger] args[i] != flag,
        n < args.len() ==> args[n] == flag,
    ensures
        position_of(args, flag) == n,
{
    lemma_position(args, flag);
    if position_of(args, flag) < n {
        assert(args[position_of(args, flag)] != flag);
    }
}

/// Sets the value of a flag, in place or at the end.
pub fn set_arg(args: &mut Vec<String>, flag: &str, value: String)
    ensures
        views(final(args)@) == with_arg(views(old(args)@), flag@, value@),
{
    let ghost before = views(args@);
    let end: usize = args.len();
    let mut i: usize = 0;
    while i < end && !str_eq(args[i].as_str(), flag)
        invariant
            i <= end,
            end == args@.len(),
            before == views(args@),
            forall|k: int| 0 <= k < i ==> #[trigger] before[k] != flag@,
        decreases end - i,
    {
        assert(before[i as int] == args@[i as int]@);
        i += 1;
    }
    proof {
        if i < end {
            assert(before[i as int] == args@[i as int]@);
        }
        lemma_position_is(before, flag@, i as int);
    }
    if i < end && i + 1 < end {
        let ghost v = value@;
        args.set(i + 1, value);
        assert(views(args@) =~= before.update(i + 1, v));
    } else {
        push_str(args, flag);
        push_string(args, value);
    }
}

/// Once a flag has been set, its value stands behind its first occurrence.
pub proof fn set_flag_takes_effect(args: Seq<Seq<char>>, flag: Seq<char>, value: Seq<char>)
    requires
        position_of(args, flag) + 1 != args.len(),
        value != flag,
    ensures
        ({
            let r = with_arg(args, flag, value);
            let i = position_of(r, flag);
            i + 1 < r.len() && r[i] == flag && r[i + 1] == value
        }),
{
    let r = with_arg(args, flag, value);
    let i = position_of(args, flag);
    lemma_position(args, flag);
    assert forall|k: int| 0 <= k < i implies #[trigger] r[k] != flag by {
        assert(args[k] != flag);
    }
    lemma_position_is(r, flag, i);
}

/// Of two settings of one flag the later one stands.
pub proof fn later_setting_stands(
    args: Seq<Seq<char>>,
    flag: Seq<char>,
    first: Seq<char>,
    second: Seq<char>,
)
    requires
        position_of(args, flag) + 1 != args.len(),
        first != flag,
    ensures
        with_arg(with_arg(args, flag, first), flag, second) == with_arg(args, flag, second),
{
    set_flag_takes_effect(args, flag, first);
    let r = with_arg(args, flag, first);
    let i = position_of(args, flag);
    lemma_position(args, flag);
    assert forall|k: int| 0 <= k < i implies #[trigger] r[k] != flag by {
        assert(args[k] != flag);
    }
    lemma_position_is(r, flag, i);
    assert(with_arg(r, flag, second) =~= with_arg(args, flag, second));
}

/// `s` without the dashes at its start.
pub open spec fn without_dashes(s: Seq<char>) -> Seq<char>
    decreases s.len(),
{
    if s.len() > 0 && s[0] == '-' {
        without_dashes(s.skip(1))
    } else {
        s
    }
}

/// The name of a flag without its dashes.
pub fn flag_name(flag: &str) -> (r: String)
    ensures
        r@ == without_dashes(flag@),
{
    let chars = to_chars(flag);
    let mut i: usize = 0;
    assert(chars@.skip(0) =~= chars@);
    while i < chars.len() && chars[i] == '-'
        invariant
            i <= chars@.len(),
            without_dashes(chars@.skip(i as int)) == without_dashes(chars@),
        decreases chars@.len() - i,
    {
        assert(chars@.skip(i as int)[0] == chars@[i as int]);
        assert(chars@.skip(i as int).skip(1) =~= chars@.skip(i + 1));
        i += 1;
    }
    let r = from_chars(&chars, i, chars.len());
    assert(r@ =~= chars@.skip(i as int));
    assert(i < chars@.len() ==> r@[0] == chars@[i as int]);
    r
}

/// The pairs of flags and values whose names the profile does not set itself.
pub open spec fn not_set_by_hand(
    pairs: Seq<Seq<char>>,
    set_by_hand: Set<Seq<char>>,
) -> Seq<Seq<char>>
    decreases pairs.len(),
{
    if pairs.len() < 2 {
        Seq::empty()
    } else if set_by_hand.contains(without_dashes(pairs[0])) {
        not_set_by_hand(pairs.skip(2), set_by_hand)
    } else {
        seq![pairs[0], pairs[1]] + not_set_by_hand(pairs.skip(2), set_by_hand)
    }
}

/// The arguments for a key frame distance, unless the profile sets one.
pub open spec fn keyint_args(keyint: Option<u32>, set_by_hand: Set<Seq<char>>) -> Seq<Seq<char>> {
    match keyint {
        Some(k) if !set_by_hand.contains("keyint"@) => seq!["--keyint"@, dec(k as nat)],
        _ => Seq::empty(),
    }
}

/// The encoder options of the profile, then those found for the colours of the
/// source and for the key frames, where the profile does not set them itself.
pub open spec fn merged_args(config: Config, opts: EncodeOptions) -> Seq<Seq<char>> {
    let set_by_hand = config.encoder_params@.dom();
    config.args() + not_set_by_hand(views(opts.hdr_args@), set_by_hand) + keyint_args(
        opts.keyint,
        set_by_hand,
    )
}

pub fn merged_encoder_args(config: &Config, opts: &EncodeOptions) -> (r: Vec<String>)
    ensures
        views(r@) == merged_args(*config, *opts),
{
    let mut args = config.encoder_args();
    let ghost own = views(args@);
    let ghost hdr = views(opts.hdr_args@);
    let ghost set_by_hand = config.encoder_params@.dom();
    let end: usize = opts.hdr_args.len();
    let mut i: usize = 0;
    assert(hdr.skip(0) =~= hdr);
    assert(own + not_set_by_hand(hdr, set_by_hand) =~= own + not_set_by_hand(
        hdr.skip(0),
        set_by_hand,
    ));
    while end - i >= 2
        invariant
            i <= end,
            end == opts.hdr_args@.len(),
            hdr == views(opts.hdr_args@),
            set_by_hand == config.encoder_params@.dom(),
            views(args@) + not_set_by_hand(hdr.skip(i as int), set_by_hand) == own
                + not_set_by_hand(hdr, set_by_hand),
        decreases end - i,
    {
        let flag = &opts.hdr_args[i];
        let value = &opts.hdr_args[i + 1];
        let ghost rest = hdr.skip(i as int);
        assert(rest[0] == flag@ && rest[1] == value@);
        assert(rest.skip(2) =~= hdr.skip(i + 2));
        let ghost before = views(args@);
        if !config.encoder_params.contains_key(flag_name(flag.as_str()).as_str()) {
            push_str(&mut args, flag.as_str());
            push_str(&mut args, value.as_str());
            assert(views(args@) =~= before + seq![flag@, value@]);
        }
        assert(views(args@) + not_set_by_hand(hdr.skip(i + 2), set_by_hand) =~= before
            + not_set_by_hand(rest, set_by_hand));
        i += 2;
    }
    assert(views(args@) =~= own + not_set_by_hand(hdr, set_by_hand));
    if let Some(keyint) = opts.keyint {
        if !config.encoder_params.contains_key("keyint") {
            push_str(&mut args, "--keyint");
            push_string(&mut args, dec_u64(keyint as u64));
        }
    }
    assert(views(args@) =~= merged_args(*config, *opts));
    args
}

pub open spec fn encoder_args_for(
    config: Config,
    output_path: Seq<char>,
    opts: EncodeOptions,
) -> Seq<Seq<char>> {
    seq!["-b"@, output_path] + merged_args(config, opts)
}

/// The encoder's arguments for a file to write.
pub fn build_encoder_args(config: &Config, output_path: &str, opts: &EncodeOptions) -> (r: Vec<
    String,
>)
    ensures
        views(r@) == encoder_args_for(*config, output_path@, *opts),
{
    let mut args: Vec<String> = Vec::new();
    push_str(&mut args, "-b");
    push_str(&mut args, output_path);
    let mut merged = merged_encoder_args(config, opts);
    let ghost head = args@;
    let ghost tail = merged@;
    args.append(&mut merged);
    assert(views(args@) =~= views(head) + views(tail));
    assert(views(head) =~= seq!["-b"@, output_path@]);
    args
}

/// The arguments with the overrides set.
pub open spec fn overridden(args: Seq<Seq<char>>, over: EncodeOverrides) -> Seq<Seq<char>> {
    let with_crf = match over.crf {
        Some(crf) => with_arg(args, "--crf"@, crf@),
        None => args,
    };
    match over.preset {
        Some(preset) => with_arg(with_crf, "--preset"@, dec(preset as nat)),
        None => with_crf,
    }
}

/// All arguments with which a chunk is encoded; the frames come by a pipe.
pub fn chunk_encoder_args(
    config: &Config,
    output_path: &str,
    opts: &EncodeOptions,
    over: EncodeOverrides,
) -> (r: Vec<String>)
    ensures
        views(r@) == overridden(encoder_args_for(*config, output_path@, *opts), over) + seq![
            "--input"@,
            "-"@,
        ],
{
    let mut args = build_encoder_args(config, output_path, opts);
    if let Some(crf) = over.crf {
        set_arg(&mut args, "--crf", crf);
    }
    if let Some(preset) = over.preset {
        set_arg(&mut args, "--preset", dec_u64(preset as u64));
    }
    let ghost so_far = views(args@);
    push_str(&mut args, "--input");
    push_str(&mut args, "-");
    assert(views(args@) =~= so_far + seq!["--input"@, "-"@]);
    args
}

/// No flag that the profile sets itself is set again by what was found for the
/// colours of the source.
pub proof fn own_settings_win(pairs: Seq<Seq<char>>, set_by_hand: Set<Seq<char>>, i: int)
    requires
        0 <= i < not_set_by_hand(pairs, set_by_hand).len(),
        i % 2 == 0,
    ensures
        !set_by_hand.contains(without_dashes(not_set_by_hand(pairs, set_by_hand)[i])),
    decreases pairs.len(),
{
    if pairs.len() >= 2 {
        let rest = not_set_by_hand(pairs.skip(2), set_by_hand);
        if set_by_hand.contains(without_dashes(pairs[0])) {
            own_settings_win(pairs.skip(2), set_by_hand, i);
        } else if i >= 2 {
            own_settings_win(pairs.skip(2), set_by_hand, i - 2);
            assert(not_set_by_hand(pairs, set_by_hand)[i] == rest[i - 2]);
        }
    }
}

/// What was found for the source and is not set by the profile reaches the
/// encoder: its flag and its value, side by side.
pub proof fn found_settings_reach_the_encoder(
    pairs: Seq<Seq<char>>,
    set_by_hand: Set<Seq<char>>,
    i: int,
) -> (k: int)
    requires
        0 <= i && 2 * i + 1 < pairs.len(),
        !set_by_hand.contains(without_dashes(pairs[2 * i])),
    ensures
        0 <= k && k + 1 < not_set_by_hand(pairs, set_by_hand).len(),
        not_set_by_hand(pairs, set_by_hand)[k] == pairs[2 * i],
        not_set_by_hand(pairs, set_by_hand)[k + 1] == pairs[2 * i + 1],
    decreases pairs.len(),
{
    let rest = pairs.skip(2);
    if i == 0 {
        0
    } else {
        let k = found_settings_reach_the_encoder(rest, set_by_hand, i - 1);
        assert(rest[2 * (i - 1)] == pairs[2 * i]);
        assert(rest[2 * (i - 1) + 1] == pairs[2 * i + 1]);
        if set_by_hand.contains(without_dashes(pairs[0])) {
            k
        } else {
            let all = not_set_by_hand(pairs, set_by_hand);
            assert(all[k + 2] == not_set_by_hand(rest, set_by_hand)[k]);
            assert(all[k + 3] == not_set_by_hand(rest, set_by_hand)[k + 1]);
            k + 2
        }
    }
}

/// The encoder wrote nothing for a chunk.
#[derive(Debug)]
pub struct EmptyChunk {
    /// The file that is empty.
    pub path: String,
}

impl EmptyChunk {
    pub fn message(&self) -> (r: String)
        ensures
            r@ == "encoder produced empty file: "@ + self.path@,
    {
        plus("encoder produced empty file: ".to_owned(), self.path.as_str())
    }
}

/// The size of the file that was written for a chunk; an empty one is refused.
pub fn check_chunk_size(path: &str, len: u64) -> (r: Result<u64, EmptyChunk>)
    ensures
        len > 0 ==> (r matches Ok(size) && size == len),
        len == 0 ==> (r matches Err(e) && e.path@ == path@),
{
    if len == 0 {
        Err(EmptyChunk { path: path.to_owned() })
    } else {
        Ok(len)
    }
}

/// The filter that scales to the given size.
pub open spec fn scale_filter(w: nat, h: nat) -> Seq<char> {
    "scale="@ + dec(w) + ":"@ + dec(h) + ":flags=lanczos"@
}

/// The arguments with which ffmpeg scales a stream of frames on its way to the
/// encoder.
pub open spec fn scaler_args_for(w: nat, h: nat) -> Seq<Seq<char>> {
    seq![
        "-hide_banner"@,
        "-loglevel"@,
        "error"@,
        "-f"@,
        "yuv4mpegpipe"@,
        "-i"@,
        "pipe:0"@,
        "-vf"@,
        scale_filter(w, h),
        "-strict"@,
        "-1"@,
        "-f"@,
        "yuv4mpegpipe"@,
        "pipe:1"@,
    ]
}

pub fn scaler_args(scale: (u32, u32)) -> (r: Vec<String>)
    ensures
        views(r@) == scaler_args_for(scale.0 as nat, scale.1 as nat),
{
    let filter = plus("scale=".to_owned(), dec_u64(scale.0 as u64).as_str());
    let filter = plus(plus(filter, ":"), dec_u64(scale.1 as u64).as_str());
    let filter = plus(filter, ":flags=lanczos");
    let mut args: Vec<String> = Vec::new();
    push_str(&mut args, "-hide_banner");
    push_str(&mut args, "-loglevel");
    push_str(&mut args, "error");
    push_str(&mut args, "-f");
    push_str(&mut args, "yuv4mpegpipe");
    push_str(&mut args, "-i");
    push_str(&mut args, "pipe:0");
    push_str(&mut args, "-vf");
    push_string(&mut args, filter);
    push_str(&mut args, "-strict");
    push_str(&mut args, "-1");
    push_str(&mut args, "-f");
    push_str(&mut args, "yuv4mpegpipe");
    push_str(&mut args, "pipe:1");
    args
}

/// The characters that have to be escaped in a list of files for ffmpeg.
pub open spec fn is_special(c: char) -> bool {
    c == '\\' || c == ' ' || c == '\''
}

/// A path as it is written in a list of files: with a backslash in front of
/// every special character.
pub open spec fn escaped(path: Seq<char>) -> Seq<char>
    decreases path.len(),
{
    if path.len() == 0 {
        Seq::empty()
    } else if is_special(path.last()) {
        escaped(path.drop_last()).push('\\').push(path.last())
    } else {
        escaped(path.drop_last()).push(path.last())
    }
}

/// The path that a reader of the list takes: a backslash stands for the
/// character behind it.
pub open spec fn unescaped(s: Seq<char>) -> Seq<char>
    decreases s.len(),
{
    if s.len() == 0 {
        Seq::empty()
    } else if s[0] == '\\' && s.len() > 1 {
        seq![s[1]] + unescaped(s.skip(2))
    } else {
        seq![s[0]] + unescaped(s.skip(1))
    }
}

pub fn escape_path(path: &str) -> (r: String)
    ensures
        r@ == escaped(path@),
{
    let chars = to_chars(path);
    let mut r = String::new();
    let mut i: usize = 0;
    while i < chars.len()
        invariant
            i <= chars@.len(),
            r@ == escaped(chars@.take(i as int)),
        decreases chars@.len() - i,
    {
        let c: char = chars[i];
        if c == '\\' || c == ' ' || c == '\'' {
            r.push('\\');
        }
        r.push(c);
        i += 1;
        assert(chars@.take(i as int).drop_last() =~= chars@.take(i - 1));
        assert(chars@.take(i as int).last() == c);
    }
    assert(chars@.take(i as int) =~= chars@);
    r
}

/// What a reader takes of two texts of which the first ends with a whole
/// character is what it takes of each.
proof fn lemma_unescaped_append(a: Seq<char>, b: Seq<char>, path: Seq<char>)
    requires
        a == escaped(path),
    ensures
        unescaped(a + b) == path + unescaped(b),
    decreases path.len(),
{
    if path.len() == 0 {
        assert(a + b =~= b);
        assert(path + unescaped(b) =~= unescaped(b));
    } else {
        let init = path.drop_last();
        let c = path.last();
        let tail = if is_special(c) {
            seq!['\\', c]
        } else {
            seq![c]
        };
        assert(a =~= escaped(init) + tail);
        assert(a + b =~= escaped(init) + (tail + b));
        lemma_unescaped_append(escaped(init), tail + b, init);
        let t = tail + b;
        if is_special(c) {
            assert(t[0] == '\\' && t[1] == c);
            assert(t.skip(2) =~= b);
        } else {
            assert(t[0] == c);
            assert(t.skip(1) =~= b);
        }
        assert(unescaped(t) == seq![c] + unescaped(b));
        assert(path + unescaped(b) =~= init + (seq![c] + unescaped(b)));
    }
}

/// Reading back a path from a list of files gives the path.
pub proof fn escaped_path_reads_back(path: Seq<char>)
    ensures
        unescaped(escaped(path)) == path,
{
    lemma_unescaped_append(escaped(path), Seq::empty(), path);
    assert(escaped(path) + Seq::<char>::empty() =~= escaped(path));
    assert(path + Seq::<char>::empty() =~= path);
}

/// The line for a file in a list of files.
pub open spec fn list_line(path: Seq<char>) -> Seq<char> {
    "file "@ + escaped(path) + "\n"@
}

/// The list of files that are to be joined.
pub open spec fn list_text(paths: Seq<Seq<char>>) -> Seq<char>
    decreases paths.len(),
{
    if paths.len() == 0 {
        ""@
    } else {
        list_text(paths.drop_last()) + list_line(paths.last())
    }
}

pub fn concat_list(chunk_paths: &[String]) -> (r: String)
    ensures
        r@ == list_text(views(chunk_paths@)),
{
    let ghost paths = views(chunk_paths@);
    let mut r = "".to_owned();
    let mut i: usize = 0;
    while i < chunk_paths.len()
        invariant
            i <= chunk_paths@.len(),
            paths == views(chunk_paths@),
            r@ == list_text(paths.take(i as int)),
        decreases chunk_paths@.len() - i,
    {
        let line = plus(
            plus("file ".to_owned(), escape_path(chunk_paths[i].as_str()).as_str()),
            "\n",
        );
        r = plus(r, line.as_str());
        i += 1;
        assert(paths.take(i as int).drop_last() =~= paths.take(i - 1));
        assert(paths.take(i as int).last() == chunk_paths@[i - 1]@);
    }
    assert(paths.take(i as int) =~= paths);
    r
}

/// A whole line at the end of a text is its last line.
proof fn lemma_last_line(s: Seq<char>, line: Seq<char>)
    requires
        s.len() == 0 || s.last() == '\n',
        forall|i: int| 0 <= i < line.len() ==> line[i] != '\n',
        line.len() == 0 || line.last() != '\r',
    ensures
        lines_of(s + line + seq!['\n']) == lines_of(s).push(line),
    decreases s.len(),
{
    let t = s + line + seq!['\n'];
    if s.len() == 0 {
        lemma_find_is(t, '\n', line.len() as int);
        assert(t.take(line.len() as int) =~= line);
        assert(t.skip(line.len() as int + 1) =~= Seq::<char>::empty());
        reveal_with_fuel(lines_of, 2);
        assert(lines_of(t) =~= seq![line]);
        assert(lines_of(s).push(line) =~= seq![line]);
    } else {
        let i = find(s, '\n');
        lemma_find(s, '\n');
        if i == s.len() {
            assert(s[s.len() - 1] != '\n');
        }
        assert forall|k: int| 0 <= k < i implies t[k] != '\n' by {
            assert(t[k] == s[k]);
        }
        assert(t[i] == s[i]);
        lemma_find_is(t, '\n', i);
        let rest = s.skip(i + 1);
        if rest.len() > 0 {
            assert(rest.last() == s.last());
        }
        lemma_last_line(rest, line);
        assert(t.take(i) =~= s.take(i));
        assert(t.skip(i + 1) =~= rest + line + seq!['\n']);
        assert(lines_of(t) =~= lines_of(s).push(line));
    }
}

proof fn lemma_escaped_is_one_line(path: Seq<char>)
    requires
        forall|i: int| 0 <= i < path.len() ==> path[i] != '\n',
        path.len() > 0 && path.last() != '\r',
    ensures
        forall|i: int| 0 <= i < escaped(path).len() ==> escaped(path)[i] != '\n',
        escaped(path).len() > 0 && escaped(path).last() == path.last(),
    decreases path.len(),
{
    lemma_escaped_keeps_lines(path);
}

proof fn lemma_escaped_keeps_lines(path: Seq<char>)
    requires
        forall|i: int| 0 <= i < path.len() ==> path[i] != '\n',
    ensures
        forall|i: int| 0 <= i < escaped(path).len() ==> escaped(path)[i] != '\n',
    decreases path.len(),
{
    if path.len() > 0 {
        let before = escaped(path.drop_last());
        lemma_escaped_keeps_lines(path.drop_last());
        assert(path.last() == path[path.len() - 1]);
        assert forall|i: int| 0 <= i < escaped(path).len() implies escaped(path)[i] != '\n' by {
            if i < before.len() {
                assert(escaped(path)[i] == before[i]);
            }
        }
    }
}

/// The lines of a list of files.
pub open spec fn entry_lines(paths: Seq<Seq<char>>) -> Seq<Seq<char>> {
    Seq::new(paths.len(), |i: int| "file "@ + escaped(paths[i]))
}

/// Paths without line breaks make one line each, and so a reader of the list
/// joins exactly the chunks of the video, in their order.
pub proof fn list_has_a_line_for_each_file(paths: Seq<Seq<char>>)
    requires
        forall|k: int, i: int|
            #![trigger paths[k][i]]
            0 <= k < paths.len() && 0 <= i < paths[k].len() ==> paths[k][i] != '\n',
        forall|k: int|
            0 <= k < paths.len() ==> (#[trigger] paths[k]).len() > 0 && paths[k].last() != '\r',
    ensures
        lines_of(list_text(paths)) == entry_lines(paths),
        list_text(paths).len() == 0 || list_text(paths).last() == '\n',
    decreases paths.len(),
{
    reveal_strlit("");
    reveal_strlit("file ");
    reveal_strlit("\n");
    if paths.len() == 0 {
        assert(lines_of(list_text(paths)) =~= entry_lines(paths));
    } else {
        let init = paths.drop_last();
        let path = paths.last();
        let n = paths.len() - 1;
        assert(paths[n] == path);
        assert forall|k: int, i: int|
            #![trigger init[k][i]]
            0 <= k < init.len() && 0 <= i < init[k].len() implies init[k][i] != '\n' by {
            assert(init[k] == paths[k]);
            assert(paths[k][i] != '\n');
        }
        assert forall|k: int| 0 <= k < init.len() implies (#[trigger] init[k]).len() > 0
            && init[k].last() != '\r' by {
            assert(init[k] == paths[k]);
        }
        list_has_a_line_for_each_file(init);
        assert forall|i: int| 0 <= i < path.len() implies path[i] != '\n' by {
            assert(paths[n][i] != '\n');
        }
        lemma_escaped_is_one_line(path);
        let line = "file "@ + escaped(path);
        assert("\n"@ =~= seq!['\n']);
        assert(list_text(paths) =~= list_text(init) + line + seq!['\n']);
        lemma_last_line(list_text(init), line);
        assert(entry_lines(paths) =~= entry_lines(init).push(line));
    }
}

/// The arguments with which ffmpeg joins the files of a list.
pub open spec fn concat_args_for(list: Seq<char>, output: Seq<char>) -> Seq<Seq<char>> {
    seq![
        "-hide_banner"@,
        "-loglevel"@,
        "error"@,
        "-y"@,
        "-f"@,
        "concat"@,
        "-safe"@,
        "0"@,
        "-i"@,
        list,
        "-c:v"@,
        "copy"@,
        "-map_metadata"@,
        "-1"@,
        "-an"@,
        "-sn"@,
        output,
    ]
}

pub fn concat_args(list: &str, output: &str) -> (r: Vec<String>)
    ensures
        views(r@) == concat_args_for(list@, output@),
{
    let mut args: Vec<String> = Vec::new();
    push_str(&mut args, "-hide_banner");
    push_str(&mut args, "-loglevel");
    push_str(&mut args, "error");
    push_str(&mut args, "-y");
    push_str(&mut args, "-f");
    push_str(&mut args, "concat");
    push_str(&mut args, "-safe");
    push_str(&mut args, "0");
    push_str(&mut args, "-i");
    push_str(&mut args, list);
    push_str(&mut args, "-c:v");
    push_str(&mut args, "copy");
    push_str(&mut args, "-map_metadata");
    push_str(&mut args, "-1");
    push_str(&mut args, "-an");
    push_str(&mut args, "-sn");
    push_str(&mut args, output);
    args
}

/// Joining never encodes, and reads nothing but the list: behind the input stand the
/// options to copy the video and to leave out metadata, audio and subtitles, and the
/// output comes last.
pub proof fn joining_copies_the_video(list: Seq<char>, output: Seq<char>)
    ensures
        ({
            let args = concat_args_for(list, output);
            &&& args.len() == 17
            &&& args[8] == "-i"@ && args[9] == list
            &&& args[4] == "-f"@ && args[5] == "concat"@ && args[6] == "-safe"@ && args[7] == "0"@
            &&& args[10] == "-c:v"@ && args[11] == "copy"@
            &&& args[12] == "-map_metadata"@ && args[13] == "-1"@
            &&& args[14] == "-an"@ && args[15] == "-sn"@
            &&& args.last() == output
        }),
        exists|i: int|
            0 <= i && i + 1 < concat_args_for(list, output).len() && #[trigger] concat_args_for(
                list,
                output,
            )[i] == "-i"@ && concat_args_for(list, output)[i + 1] == list && sets_behind(
                concat_args_for(list, output),
                i + 1,
                "-c:v"@,
                "copy"@,
            ),
{
    let args = concat_args_for(list, output);
    assert(args[8] == "-i"@ && args[8int + 1] == list);
    assert(args[10] == "-c:v"@ && args[10int + 1] == "copy"@);
    assert(sets_behind(args, 8int + 1, "-c:v"@, "copy"@));
}

/// A whole CRF is written as it is, and each quarter above it as its hundredths.
pub proof fn crfs_are_written_in_hundredths(n: nat)
    ensures
        quarters_text(4 * n) == dec(n),
        quarters_text(4 * n + 1) == dec(n) + seq!['.', '2', '5'],
        quarters_text(4 * n + 2) == dec(n) + seq!['.', '5'],
        quarters_text(4 * n + 3) == dec(n) + seq!['.', '7', '5'],
{
    reveal_strlit("");
    reveal_strlit(".25");
    reveal_strlit(".5");
    reveal_strlit(".75");
    assert(quarters_text(4 * n) =~= dec(n));
    assert(".25"@ =~= seq!['.', '2', '5']);
    assert(".5"@ =~= seq!['.', '5']);
    assert(".75"@ =~= seq!['.', '7', '5']);
}

/// Setting a flag changes nothing but its value: where it stands among the arguments,
/// what follows its first occurrence is replaced; where it does not, it is put at
/// the end with its value.
pub proof fn setting_a_flag_changes_nothing_else(
    args: Seq<Seq<char>>,
    flag: Seq<char>,
    value: Seq<char>,
    i: int,
)
    ensures
        0 <= i && i + 1 < args.len() && args[i] == flag && (forall|k: int|
            0 <= k < i ==> #[trigger] args[k] != flag) ==> with_arg(args, flag, value)
            == args.update(i + 1, value),
        (forall|k: int| 0 <= k < args.len() ==> #[trigger] args[k] != flag) ==> with_arg(
            args,
            flag,
            value,
        ) == args + seq![flag, value],
{
    if 0 <= i && i + 1 < args.len() && args[i] == flag && (forall|k: int|
        0 <= k < i ==> #[trigger] args[k] != flag) {
        lemma_position_is(args, flag, i);
    }
    if forall|k: int| 0 <= k < args.len() ==> #[trigger] args[k] != flag {
        lemma_position_is(args, flag, args.len() as int);
        assert(with_arg(args, flag, value) =~= args + seq![flag, value]);
    }
}

/// An override of the CRF reaches the encoder in place of the profile's own, an
/// override of the preset likewise, and without overrides nothing changes.
pub proof fn overrides_take_the_place_of_the_profile(
    args: Seq<Seq<char>>,
    over: EncodeOverrides,
    i: int,
    j: int,
)
    requires
        0 <= i && i + 1 < args.len() && args[i] == "--crf"@,
        forall|k: int| 0 <= k < i ==> #[trigger] args[k] != "--crf"@,
        0 <= j && j + 1 < args.len() && args[j] == "--preset"@,
        forall|k: int| 0 <= k < j ==> #[trigger] args[k] != "--preset"@,
        over.crf matches Some(crf) ==> crf@ != "--preset"@,
        i + 1 != j && j + 1 != i,
    ensures
        ({
            let r = overridden(args, over);
            &&& r.len() == args.len()
            &&& r[i] == "--crf"@ && r[i + 1] == (match over.crf {
                Some(crf) => crf@,
                None => args[i + 1],
            })
            &&& r[j] == "--preset"@ && r[j + 1] == (match over.preset {
                Some(preset) => dec(preset as nat),
                None => args[j + 1],
            })
            &&& forall|k: int|
                0 <= k < args.len() && k != i + 1 && k != j + 1 ==> #[trigger] r[k] == args[k]
        }),
{
    reveal_strlit("--crf");
    reveal_strlit("--preset");
    assert("--crf"@.len() != "--preset"@.len());
    assert(i != j);
    let first = match over.crf {
        Some(crf) => with_arg(args, "--crf"@, crf@),
        None => args,
    };
    if let Some(crf) = over.crf {
        setting_a_flag_changes_nothing_else(args, "--crf"@, crf@, i);
        assert(first == args.update(i + 1, crf@));
    }
    assert forall|k: int| 0 <= k < j implies #[trigger] first[k] != "--preset"@ by {
        assert(args[k] != "--preset"@);
    }
    assert(first[j] == "--preset"@);
    if let Some(preset) = over.preset {
        setting_a_flag_changes_nothing_else(first, "--preset"@, dec(preset as nat), j);
    }
}

/// The output of an encode is named first, and every option of the profile follows
/// with its value.
pub proof fn every_option_of_the_profile_is_passed(
    config: Config,
    output: Seq<char>,
    opts: EncodeOptions,
    key: Seq<char>,
)
    requires
        config.encoder_params.well_formed(),
        config.encoder_params@.contains_key(key),
    ensures
        encoder_args_for(config, output, opts)[0] == "-b"@,
        encoder_args_for(config, output, opts)[1] == output,
        sets(
            encoder_args_for(config, output, opts),
            "--"@ + key,
            crate::config::arg_of(config.encoder_params@[key]),
        ),
{
    let keys = config.encoder_params.keys();
    let n = keys.index_of(key);
    assert(keys[n] == key && 0 <= n < keys.len());
    let own = config.args();
    let value = crate::config::arg_of(config.encoder_params@[key]);
    assert(config.encoder_params@[key] == config.encoder_params.values()[n]);
    assert((2 * n) % 2 == 0 && (2 * n) / 2 == n && (2 * n + 1) % 2 == 1 && (2 * n + 1) / 2 == n);
    assert(own[2 * n] == "--"@ + key);
    assert(own[2 * n + 1] == value);
    assert(sets(own, "--"@ + key, value));
    let set_by_hand = config.encoder_params@.dom();
    let found = not_set_by_hand(views(opts.hdr_args@), set_by_hand);
    let key_args = keyint_args(opts.keyint, set_by_hand);
    lemma_sets_front(own, found, "--"@ + key, value);
    lemma_sets_front(own + found, key_args, "--"@ + key, value);
    lemma_sets_back(seq!["-b"@, output], own + found + key_args, "--"@ + key, value);
}

/// The distance of key frames reaches the encoder, last of all, unless the profile
/// sets one; where there is none to set, nothing is added.
pub proof fn key_frames_are_set_unless_the_profile_does(config: Config, opts: EncodeOptions)
    ensures
        ({
            let r = merged_args(config, opts);
            let own = config.args();
            let found = not_set_by_hand(views(opts.hdr_args@), config.encoder_params@.dom());
            match opts.keyint {
                Some(k) if !config.encoder_params@.contains_key("keyint"@) => r == own + found
                    + seq!["--keyint"@, dec(k as nat)],
                _ => r == own + found,
            }
        }),
{
    let own = config.args();
    let found = not_set_by_hand(views(opts.hdr_args@), config.encoder_params@.dom());
    assert(merged_args(config, opts) =~= own + found + keyint_args(
        opts.keyint,
        config.encoder_params@.dom(),
    ));
    assert(own + found + Seq::<Seq<char>>::empty() =~= own + found);
}

/// Nothing is passed for the colours of a source that was not found for it: each
/// flag stands with the value that it was found with.
pub proof fn only_found_settings_are_passed(
    pairs: Seq<Seq<char>>,
    set_by_hand: Set<Seq<char>>,
    i: int,
) -> (k: int)
    requires
        0 <= i && 2 * i < not_set_by_hand(pairs, set_by_hand).len(),
    ensures
        0 <= k && 2 * k + 1 < pairs.len(),
        2 * i + 1 < not_set_by_hand(pairs, set_by_hand).len(),
        not_set_by_hand(pairs, set_by_hand)[2 * i] == pairs[2 * k],
        not_set_by_hand(pairs, set_by_hand)[2 * i + 1] == pairs[2 * k + 1],
    decreases pairs.len(),
{
    let rest = pairs.skip(2);
    if set_by_hand.contains(without_dashes(pairs[0])) {
        let k = only_found_settings_are_passed(rest, set_by_hand, i);
        assert(rest[2 * k] == pairs[2 * (k + 1)] && rest[2 * k + 1] == pairs[2 * (k + 1) + 1]);
        k + 1
    } else if i == 0 {
        0
    } else {
        let k = only_found_settings_are_passed(rest, set_by_hand, i - 1);
        assert(rest[2 * k] == pairs[2 * (k + 1)] && rest[2 * k + 1] == pairs[2 * (k + 1) + 1]);
        let all = not_set_by_hand(pairs, set_by_hand);
        assert(all[2 * i] == not_set_by_hand(rest, set_by_hand)[2 * (i - 1)]);
        assert(all[2 * i + 1] == not_set_by_hand(rest, set_by_hand)[2 * (i - 1) + 1]);
        k + 1
    }
}

/// Frames are scaled on their way from one pipe to the other: the stream comes in
/// and goes out in the format of the encoder's input, and in between it is scaled to
/// the size that is asked for.
pub proof fn frames_are_scaled_between_pipes(w: nat, h: nat)
    ensures
        ({
            let args = scaler_args_for(w, h);
            &&& args.len() == 14
            &&& args[3] == "-f"@ && args[4] == "yuv4mpegpipe"@
            &&& args[5] == "-i"@ && args[6] == "pipe:0"@
            &&& sets_behind(args, 6, "-vf"@, "scale="@ + dec(w) + ":"@ + dec(h) + ":flags=lanczos"@)
            &&& sets_behind(args, 6, "-strict"@, "-1"@)
            &&& sets_behind(args, 6, "-f"@, "yuv4mpegpipe"@)
            &&& args.last() == "pipe:1"@
        }),
{
    let args = scaler_args_for(w, h);
    assert(args[7] == "-vf"@ && args[7int + 1] == scale_filter(w, h));
    assert(args[9] == "-strict"@ && args[9int + 1] == "-1"@);
    assert(args[11] == "-f"@ && args[11int + 1] == "yuv4mpegpipe"@);
}

/// What a reader of a list of files takes for one path, as ffmpeg does: a backslash
/// stands for the character behind it, and outside of that a blank or a quote would end
/// the path, so that there is none.
pub open spec fn token_of(s: Seq<char>) -> Option<Seq<char>>
    decreases s.len(),
{
    if s.len() == 0 {
        Some(Seq::empty())
    } else if s[0] == '\\' && s.len() > 1 {
        match token_of(s.skip(2)) {
            Some(t) => Some(seq![s[1]] + t),
            None => None,
        }
    } else if s[0] == ' ' || s[0] == '\'' || s[0] == '\\' {
        None
    } else {
        match token_of(s.skip(1)) {
            Some(t) => Some(seq![s[0]] + t),
            None => None,
        }
    }
}

proof fn lemma_token_append(path: Seq<char>, rest: Seq<char>)
    requires
        token_of(rest) is Some,
    ensures
        token_of(escaped(path) + rest) == Some(path + token_of(rest).unwrap()),
    decreases path.len(),
{
    if path.len() == 0 {
        assert(escaped(path) + rest =~= rest);
        assert(path + token_of(rest).unwrap() =~= token_of(rest).unwrap());
    } else {
        let init = path.drop_last();
        let c = path.last();
        if is_special(c) {
            let tail = seq!['\\', c] + rest;
            assert(tail.skip(2) =~= rest);
            assert(token_of(tail) == Some(seq![c] + token_of(rest).unwrap()));
            lemma_token_append(init, tail);
            assert(escaped(path) + rest =~= escaped(init) + tail);
        } else {
            let tail = seq![c] + rest;
            assert(tail.skip(1) =~= rest);
            assert(token_of(tail) == Some(seq![c] + token_of(rest).unwrap()));
            lemma_token_append(init, tail);
            assert(escaped(path) + rest =~= escaped(init) + tail);
        }
        assert(init + (seq![c] + token_of(rest).unwrap()) =~= path + token_of(rest).unwrap());
    }
}

/// An escaped path is one path to a reader of the list, blanks, quotes and all, and it is
/// the path that was escaped.
pub proof fn escaped_paths_are_one_token(path: Seq<char>)
    ensures
        token_of(escaped(path)) == Some(path),
{
    lemma_token_append(path, Seq::empty());
    assert(escaped(path) + Seq::<char>::empty() =~= escaped(path));
    assert(path + Seq::<char>::empty() =~= path);
}

/// A path without any special character is written as it is.
pub proof fn plain_paths_are_not_escaped(path: Seq<char>)
    requires
        forall|i: int|
            0 <= i < path.len() ==> #[trigger] path[i] != '\\' && path[i] != ' ' && path[i] != '\'',
    ensures
        escaped(path) == path,
    decreases path.len(),
{
    if path.len() > 0 {
        let init = path.drop_last();
        assert forall|i: int| 0 <= i < init.len() implies #[trigger] init[i] != '\\' && init[i]
            != ' ' && init[i] != '\'' by {
            assert(init[i] == path[i]);
        }
        plain_paths_are_not_escaped(init);
        assert(path[path.len() - 1] == path.last());
        assert(escaped(path) =~= path);
    } else {
        assert(escaped(path) =~= path);
    }
}

/// The encoder with support for HDR is a program of its own, named after the other.
pub proof fn each_encoder_is_its_own_program()
    ensures
        binary_of(Encoder::SvtAv1) == "SvtAv1EncApp"@,
        binary_of(Encoder::SvtAv1Hdr) == binary_of(Encoder::SvtAv1) + "-hdr"@,
{
    reveal_strlit("SvtAv1EncApp");
    reveal_strlit("SvtAv1EncApp-hdr");
    reveal_strlit("-hdr");
    assert("SvtAv1EncApp-hdr"@ =~= "SvtAv1EncApp"@ + "-hdr"@);
}

/// Overrides of what the profile does not set are put behind the profile's own arguments.
pub proof fn overrides_are_added_where_the_profile_sets_nothing(
    args: Seq<Seq<char>>,
    over: EncodeOverrides,
)
    requires
        forall|k: int| 0 <= k < args.len() ==> #[trigger] args[k] != "--crf"@,
        forall|k: int| 0 <= k < args.len() ==> #[trigger] args[k] != "--preset"@,
        over.crf matches Some(crf) ==> crf@ != "--preset"@,
    ensures
        overridden(args, over) == args + (match over.crf {
            Some(crf) => seq!["--crf"@, crf@],
            None => Seq::empty(),
        }) + (match over.preset {
            Some(preset) => seq!["--preset"@, dec(preset as nat)],
            None => Seq::empty(),
        }),
{
    reveal_strlit("--crf");
    reveal_strlit("--preset");
    assert("--crf"@.len() != "--preset"@.len());
    let first = match over.crf {
        Some(crf) => with_arg(args, "--crf"@, crf@),
        None => args,
    };
    if let Some(crf) = over.crf {
        setting_a_flag_changes_nothing_else(args, "--crf"@, crf@, 0);
        assert(first =~= args + seq!["--crf"@, crf@]);
    } else {
        assert(first =~= args + Seq::<Seq<char>>::empty());
    }
    assert forall|k: int| 0 <= k < first.len() implies #[trigger] first[k] != "--preset"@ by {
        if k < args.len() {
            assert(first[k] == args[k]);
        }
    }
    if let Some(preset) = over.preset {
        setting_a_flag_changes_nothing_else(first, "--preset"@, dec(preset as nat), 0);
    } else {
        assert(first + Seq::<Seq<char>>::empty() =~= first);
    }
}

/// A chunk is written to its file from frames that come by a pipe, and an empty file is
/// no chunk.
pub proof fn chunks_are_encoded_from_a_pipe(
    config: &Config,
    output: &str,
    opts: &EncodeOptions,
    over: EncodeOverrides,
    r: Vec<String>,
)
    requires
        call_ensures(chunk_encoder_args, (config, output, opts, over), r),
    ensures
        r@.len() >= 2,
        r@[r@.len() - 2]@ == "--input"@,
        r@[r@.len() - 1]@ == "-"@,
        views(r@).take(r@.len() - 2) == overridden(encoder_args_for(*config, output@, *opts), over),
        over.crf is None && over.preset is None ==> views(r@).take(r@.len() - 2)
            == encoder_args_for(*config, output@, *opts),
{
    let args = overridden(encoder_args_for(*config, output@, *opts), over);
    let all = views(r@);
    assert(all == args + seq!["--input"@, "-"@]);
    assert(all.len() == r@.len());
    assert(all[r@.len() - 2] == "--input"@);
    assert(all[r@.len() - 1] == "-"@);
    assert(all.take(r@.len() - 2) =~= args);
}

/// What was written for a chunk is taken exactly when it is not empty.
pub proof fn empty_chunks_are_refused(path: &str, len: u64, r: Result<u64, EmptyChunk>)
    requires
        call_ensures(check_chunk_size, (path, len), r),
    ensures
        r is Ok <==> len != 0,
        r matches Ok(size) ==> size == len,
        r matches Err(e) ==> e.path@ == path@,
{
}

/// The name of a flag is what stands behind its dashes, however many these are.
pub proof fn flags_are_named_without_dashes(name: Seq<char>)
    requires
        name.len() == 0 || name[0] != '-',
    ensures
        without_dashes(name) == name,
        without_dashes(seq!['-'] + name) == name,
        without_dashes("--"@ + name) == name,
{
    reveal_strlit("--");
    assert(without_dashes(name) == name);
    let one = seq!['-'] + name;
    assert(one[0] == '-');
    assert(one.skip(1) =~= name);
    let two = "--"@ + name;
    assert(two[0] == '-');
    assert(two.skip(1) =~= one);
    assert(without_dashes(one) == name);
}

/// Joining and scaling are quiet, and joining overwrites what an earlier run has left.
pub proof fn tools_of_an_encode_are_quiet(list: Seq<char>, output: Seq<char>, w: nat, h: nat)
    ensures
        quiet(concat_args_for(list, output)),
        concat_args_for(list, output)[3] == "-y"@,
        quiet(scaler_args_for(w, h)),
{
}

/// A file is listed on a line of its own, behind those that come before it in the video.
pub proof fn files_are_listed_in_order(paths: Seq<Seq<char>>, path: Seq<char>)
    ensures
        list_text(paths.push(path)) == list_text(paths) + ("file "@ + escaped(path) + "\n"@),
        list_text(Seq::empty()) == ""@,
{
    assert(paths.push(path).drop_last() =~= paths);
}

} // verus!
