//! The decisions of a job: the size of the output, the profile that cached work
//! belongs to, when a source is ready, and when an output is finished.
use vstd::prelude::*;

use crate::config::{nearest, nearest_u32, AvxsConfig, ParamValue};
use crate::encode::without_dashes;
use crate::ffms2::{crop_of, even_below, Crop};
use crate::number::{dec, dec_u64, parse_nat, parse_u32, parse_u64, parse_unsigned};
use crate::text::{
    joined, opt_str, opt_view, plus, push_string, split_first, split_once, str_eq, to_chars, trim,
    trimmed, views,
};

verus! {

/// Where jobs come from and where their outputs go.
#[derive(Debug)]
pub struct JobContext {
    pub input_dir: String,
    pub output_dir: String,
}

/// The contents of a list of string slices.
pub open spec fn str_views(v: Seq<&'static str>) -> Seq<Seq<char>> {
    Seq::new(v.len(), |i: int| v[i]@)
}

/// A name, if the option it stands for is set.
pub open spec fn named_if(set: bool, name: Seq<char>) -> Seq<Seq<char>> {
    if set {
        seq![name]
    } else {
        Seq::empty()
    }
}

/// The video options that a profile sets.
pub open spec fn video_opts(a: AvxsConfig) -> Seq<Seq<char>> {
    named_if(a.hdr, "hdr"@) + named_if(a.crop, "crop"@) + named_if(a.keyint, "keyint"@) + named_if(
        a.scale is Some,
        "scale"@,
    ) + named_if(a.bit_depth is Some, "bit_depth"@)
}

/// The options of a profile that have no effect when the video is copied.
pub fn ignored_video_opts(a: &AvxsConfig) -> (r: Vec<&'static str>)
    ensures
        str_views(r@) == video_opts(*a),
{
    let mut v: Vec<&'static str> = Vec::new();
    if a.hdr {
        v.push("hdr");
    }
    assert(str_views(v@) =~= named_if(a.hdr, "hdr"@));
    let ghost s1 = str_views(v@);
    if a.crop {
        v.push("crop");
    }
    assert(str_views(v@) =~= s1 + named_if(a.crop, "crop"@));
    let ghost s2 = str_views(v@);
    if a.keyint {
        v.push("keyint");
    }
    assert(str_views(v@) =~= s2 + named_if(a.keyint, "keyint"@));
    let ghost s3 = str_views(v@);
    if a.scale.is_some() {
        v.push("scale");
    }
    assert(str_views(v@) =~= s3 + named_if(a.scale is Some, "scale"@));
    let ghost s4 = str_views(v@);
    if a.bit_depth.is_some() {
        v.push("bit_depth");
    }
    assert(str_views(v@) =~= s4 + named_if(a.bit_depth is Some, "bit_depth"@));
    v
}

/// The even number at or just below `v`.
pub fn round_down_even(v: u32) -> (r: u32)
    ensures
        r == even_below(v),
{
    v - v % 2
}

/// The size to scale a picture of `w` by `h` pixels to, so that it is no taller
/// than `target`: in proportion, with both edges rounded down to even numbers.
/// One that is not taller is not scaled.
pub open spec fn scaled_size(w: u32, h: u32, target: Option<u32>) -> Option<(u32, u32)> {
    match target {
        Some(th) if h > th => Some((even_below((w as nat * th as nat / h as nat) as u32), even_below(th))),
        _ => None,
    }
}

/// The part of the source that is encoded: the rectangle, or all of it.
pub open spec fn effective_size(src_w: u32, src_h: u32, crop: Option<Crop>) -> (u32, u32) {
    match crop {
        Some(c) => (c.w, c.h),
        None => (src_w, src_h),
    }
}

/// The filter for scene detection, which sees the picture as the encoder does:
/// the crop, then the scale.
pub open spec fn scene_filter(
    crop: Option<Seq<char>>,
    scale: Option<(u32, u32)>,
) -> Option<Seq<char>> {
    match (crop, scale) {
        (None, None) => None,
        (Some(c), None) => Some(c),
        (None, Some((w, h))) => Some("scale="@ + dec(w as nat) + ":"@ + dec(h as nat)),
        (Some(c), Some((w, h))) => Some(
            c + ",scale="@ + dec(w as nat) + ":"@ + dec(h as nat),
        ),
    }
}

pub fn build_scene_vf(crop_str: Option<&str>, scale_target: Option<(u32, u32)>) -> (r: Option<
    String,
>)
    ensures
        opt_view(r) == scene_filter(opt_str(crop_str), scale_target),
{
    match (crop_str, scale_target) {
        (None, None) => None,
        (Some(c), None) => Some(c.to_owned()),
        (None, Some((w, h))) => {
            let r = plus("scale=".to_owned(), dec_u64(w as u64).as_str());
            Some(plus(plus(r, ":"), dec_u64(h as u64).as_str()))
        },
        (Some(c), Some((w, h))) => {
            let r = plus(plus(c.to_owned(), ",scale="), dec_u64(w as u64).as_str());
            Some(plus(plus(r, ":"), dec_u64(h as u64).as_str()))
        },
    }
}

/// The size to scale to, the part of the source to keep, and the filter for
/// scene detection.
pub fn compute_output_params(
    src_w: u32,
    src_h: u32,
    crop_str: Option<&str>,
    target_height: Option<u32>,
) -> (r: (Option<(u32, u32)>, Option<Crop>, Option<String>))
    ensures
        r.1 == (match crop_str {
            Some(s) => crop_of(s@),
            None => None,
        }),
        r.0 == scaled_size(
            effective_size(src_w, src_h, r.1).0,
            effective_size(src_w, src_h, r.1).1,
            target_height,
        ),
        opt_view(r.2) == scene_filter(opt_str(crop_str), r.0),
{
    let crop = match crop_str {
        Some(s) => Crop::from_str(s),
        None => None,
    };
    let (w, h) = match crop {
        Some(c) => (c.w, c.h),
        None => (src_w, src_h),
    };
    let scale = match target_height {
        Some(th) => {
            if h > th {
                assert(w as nat * th as nat / h as nat <= w) by (nonlinear_arith)
                    requires
                        th < h,
                        w >= 0,
                ;
                assert(w as nat * th as nat <= 0xffff_ffff * 0xffff_ffff) by (nonlinear_arith)
                    requires
                        w <= 0xffff_ffff,
                        th <= 0xffff_ffff,
                ;
                let product: u64 = (w as u64) * (th as u64);
                let scaled_w: u64 = product / (h as u64);
                Some((round_down_even(scaled_w as u32), round_down_even(th)))
            } else {
                None
            }
        },
        None => None,
    };
    let filter = build_scene_vf(crop_str, scale);
    (scale, crop, filter)
}

/// A scaled picture is no taller than asked for, has even edges, and its width
/// is the proportional one to within two columns.
pub proof fn scaling_keeps_the_proportions(w: u32, h: u32, target: u32)
    requires
        h > target,
    ensures
        ({
            let (sw, sh) = scaled_size(w, h, Some(target)).unwrap();
            &&& sh <= target && target - sh <= 1
            &&& sw % 2 == 0 && sh % 2 == 0
            &&& sw * h <= w * target < (sw + 2) * h
        }),
{
    let q = w as nat * target as nat / h as nat;
    assert(q <= w && q * h <= w * target < (q + 1) * h) by (nonlinear_arith)
        requires
            q == w as nat * target as nat / h as nat,
            target < h,
            w >= 0,
    ;
    let sw = even_below(q as u32);
    assert(sw == q || sw + 1 == q);
    assert(sw * h <= q * h && (q + 1) * h <= (sw + 2) * h) by (nonlinear_arith)
        requires
            sw == q || sw + 1 == q,
            h > 0,
    ;
}

/// The greatest distance of key frames that a frame rate calls for: five
/// seconds, and at least one frame.
pub open spec fn keyint_for(fps_num: nat, fps_den: nat) -> nat {
    let frames = nearest(5 * fps_num, fps_den);
    if frames < 1 {
        1
    } else if frames > u32::MAX {
        u32::MAX as nat
    } else {
        frames
    }
}

pub fn auto_keyint(fps_num: u32, fps_den: u32) -> (r: u32)
    requires
        fps_den > 0,
    ensures
        r == keyint_for(fps_num as nat, fps_den as nat),
{
    let frames: u128 = nearest_u32(5, fps_num, fps_den);
    if frames < 1 {
        1
    } else if frames > u32::MAX as u128 {
        u32::MAX
    } else {
        frames as u32
    }
}

/// The threads of one encode: what the profile sets for the encoder, or six.
pub open spec fn threads_of(value: Option<ParamValue>) -> nat {
    match value {
        Some(ParamValue::Int(i)) => if 0 < i <= usize::MAX {
            i as nat
        } else {
            6
        },
        Some(ParamValue::Str(s)) => match parse_nat(s@, usize::MAX as nat) {
            Some(n) => if n > 0 {
                n
            } else {
                6
            },
            None => 6,
        },
        _ => 6,
    }
}

pub fn threads_per_worker(value: Option<&ParamValue>) -> (r: usize)
    ensures
        r == threads_of(crate::config::behind(value)),
        r > 0,
{
    match value {
        Some(ParamValue::Int(i)) => {
            let i: i64 = *i;
            if i > 0 && i as u64 <= usize::MAX as u64 {
                i as usize
            } else {
                6
            }
        },
        Some(ParamValue::Str(s)) => match parse_unsigned(s.as_str(), usize::MAX as u64) {
            Some(n) => if n > 0 {
                n as usize
            } else {
                6
            },
            None => 6,
        },
        _ => 6,
    }
}

/// Why a frame rate cannot be used.
#[derive(Debug, Clone, Copy, PartialEq, Eq, Structural)]
pub enum FpsError {
    Numerator,
    Denominator,
    Whole,
    /// The rate is the whole number zero.
    Zero,
    Invalid { num: u32, den: u32 },
}

impl FpsError {
    pub open spec fn text(self) -> Seq<char> {
        match self {
            FpsError::Numerator => "parse fps numerator"@,
            FpsError::Denominator => "parse fps denominator"@,
            FpsError::Whole => "parse fps"@,
            FpsError::Zero => "invalid fps: 0"@,
            FpsError::Invalid { num, den } => "invalid fps: "@ + dec(num as nat) + "/"@ + dec(
                den as nat,
            ),
        }
    }

    pub fn message(&self) -> (r: String)
        ensures
            r@ == self.text(),
    {
        match self {
            FpsError::Numerator => "parse fps numerator".to_owned(),
            FpsError::Denominator => "parse fps denominator".to_owned(),
            FpsError::Whole => "parse fps".to_owned(),
            FpsError::Zero => "invalid fps: 0".to_owned(),
            FpsError::Invalid { num, den } => {
                let r = plus("invalid fps: ".to_owned(), dec_u64(*num as u64).as_str());
                plus(plus(r, "/"), dec_u64(*den as u64).as_str())
            },
        }
    }
}

/// The frame rate that a probe reports, as a fraction or as a whole number;
/// neither part of it may be zero.
pub open spec fn fps_of(rate: Seq<char>) -> Result<(u32, u32), FpsError> {
    match split_first(rate, '/') {
        Some((n, d)) => match (
            parse_nat(trimmed(n), u32::MAX as nat),
            parse_nat(trimmed(d), u32::MAX as nat),
        ) {
            (None, _) => Err(FpsError::Numerator),
            (_, None) => Err(FpsError::Denominator),
            (Some(n), Some(d)) => if n > 0 && d > 0 {
                Ok((n as u32, d as u32))
            } else {
                Err(FpsError::Invalid { num: n as u32, den: d as u32 })
            },
        },
        None => match parse_nat(trimmed(rate), u32::MAX as nat) {
            None => Err(FpsError::Whole),
            Some(n) => if n > 0 {
                Ok((n as u32, 1u32))
            } else {
                Err(FpsError::Zero)
            },
        },
    }
}

pub fn parse_fps(rate: &str) -> (r: Result<(u32, u32), FpsError>)
    ensures
        r == fps_of(rate@),
{
    match split_once(rate, '/') {
        Some((n, d)) => {
            let num = parse_u32(trim(n.as_str()).as_str());
            let den = parse_u32(trim(d.as_str()).as_str());
            match (num, den) {
                (None, _) => Err(FpsError::Numerator),
                (_, None) => Err(FpsError::Denominator),
                (Some(num), Some(den)) => if num > 0 && den > 0 {
                    Ok((num, den))
                } else {
                    Err(FpsError::Invalid { num, den })
                },
            }
        },
        None => match parse_u32(trim(rate).as_str()) {
            None => Err(FpsError::Whole),
            Some(n) => if n > 0 {
                Ok((n, 1))
            } else {
                Err(FpsError::Zero)
            },
        },
    }
}

/// The size of a packet; zero where it is not reported as a number.
pub open spec fn packet_size(size: Option<Seq<char>>) -> nat {
    match size {
        Some(s) => match parse_nat(s, u64::MAX as nat) {
            Some(n) => n,
            None => 0,
        },
        None => 0,
    }
}

/// The bytes of the first `n` packets together; a sum beyond the range of `u64`
/// becomes its greatest value.
pub open spec fn bytes_before(sizes: Seq<Option<String>>, n: nat) -> nat
    decreases n,
{
    if n == 0 {
        0
    } else {
        let sum = bytes_before(sizes, (n - 1) as nat) + packet_size(opt_view(sizes[n - 1]));
        if sum > u64::MAX {
            u64::MAX as nat
        } else {
            sum
        }
    }
}

/// The bytes of the source up to each frame, from the sizes of its packets.
pub fn source_byte_index(sizes: &[Option<String>]) -> (r: Vec<u64>)
    ensures
        r@.len() == sizes@.len() + 1,
        forall|i: int|
            0 <= i < r@.len() ==> #[trigger] r@[i] == bytes_before(sizes@, i as nat),
{
    let mut cum: Vec<u64> = Vec::new();
    let mut acc: u64 = 0;
    cum.push(0);
    let mut i: usize = 0;
    while i < sizes.len()
        invariant
            i <= sizes@.len(),
            cum@.len() == i + 1,
            acc == bytes_before(sizes@, i as nat),
            forall|k: int|
                0 <= k <= i ==> #[trigger] cum@[k] == bytes_before(sizes@, k as nat),
        decreases sizes@.len() - i,
    {
        let size: u64 = match &sizes[i] {
            Some(s) => match parse_u64(s.as_str()) {
                Some(n) => n,
                None => 0,
            },
            None => 0,
        };
        acc = acc.saturating_add(size);
        cum.push(acc);
        i += 1;
        assert(acc == bytes_before(sizes@, i as nat));
    }
    cum
}

/// The bytes up to a frame are no more than those up to a later one.
pub proof fn byte_index_never_decreases(sizes: Seq<Option<String>>, a: nat, b: nat)
    requires
        a <= b <= sizes.len(),
    ensures
        bytes_before(sizes, a) <= bytes_before(sizes, b),
    decreases b,
{
    if a < b {
        byte_index_never_decreases(sizes, a, (b - 1) as nat);
        lemma_bytes_in_range(sizes, (b - 1) as nat);
    }
}

proof fn lemma_bytes_in_range(sizes: Seq<Option<String>>, n: nat)
    ensures
        bytes_before(sizes, n) <= u64::MAX,
    decreases n,
{
    if n > 0 {
        lemma_bytes_in_range(sizes, (n - 1) as nat);
    }
}

/// How much of a job is done, in percent.
pub fn percent_done(frames: u64, total: u64) -> (r: u64)
    requires
        0 < total,
        frames <= total,
    ensures
        r == frames as nat * 100 / total as nat,
        r <= 100,
{
    assert(frames as nat * 100 / total as nat <= 100) by (nonlinear_arith)
        requires
            frames <= total,
            total > 0,
    ;
    ((frames as u128 * 100) / (total as u128)) as u64
}

/// The encoder options as they are shown: names and values with an equals sign
/// between them.
pub open spec fn shown_options(args: Seq<Seq<char>>) -> Seq<Seq<char>>
    decreases args.len(),
{
    if args.len() < 2 {
        Seq::empty()
    } else {
        seq![without_dashes(args[0]) + "="@ + args[1]] + shown_options(args.skip(2))
    }
}

/// The line that shows the encoder options.
pub fn encoder_summary(args: &[String]) -> (r: String)
    ensures
        r@ == joined(shown_options(views(args@)), " "@),
{
    let ghost all = views(args@);
    let end: usize = args.len();
    let mut shown: Vec<String> = Vec::new();
    let mut i: usize = 0;
    assert(all.skip(0) =~= all);
    assert(views(shown@) + shown_options(all) =~= shown_options(all));
    while end - i >= 2
        invariant
            i <= end,
            end == args@.len(),
            all == views(args@),
            views(shown@) + shown_options(all.skip(i as int)) == shown_options(all),
        decreases end - i,
    {
        let ghost rest = all.skip(i as int);
        let ghost before = views(shown@);
        assert(rest[0] == args@[i as int]@ && rest[1] == args@[i + 1]@);
        assert(rest.skip(2) =~= all.skip(i + 2));
        let name = crate::encode::flag_name(args[i].as_str());
        push_string(&mut shown, plus(plus(name, "="), args[i + 1].as_str()));
        assert(views(shown@) + shown_options(all.skip(i + 2)) =~= before + shown_options(rest));
        i += 2;
    }
    assert(views(shown@) =~= shown_options(all));
    crate::text::join(&shown, " ")
}

/// What a job finds of an earlier run's profile.
#[derive(Debug, Clone, Copy, PartialEq, Eq, Structural)]
pub enum CacheAction {
    /// The profile is the same: the cached work can be used.
    Keep,
    /// There was no profile: only the new one is recorded.
    Record,
    /// The profile changed: the cached work is discarded before the new one is
    /// recorded, so that no encode mixes chunks of different settings.
    DiscardAndRecord,
}

/// What becomes of cached scenes, chunks and CRFs. `previous` is the fingerprint
/// that an earlier run recorded; an empty one counts as none.
pub fn cache_action(previous: Option<&str>, fingerprint: &str) -> (r: CacheAction)
    ensures
        r == (match opt_str(previous) {
            Some(p) => if p.len() == 0 {
                CacheAction::Record
            } else if p == fingerprint@ {
                CacheAction::Keep
            } else {
                CacheAction::DiscardAndRecord
            },
            None => CacheAction::Record,
        }),
{
    match previous {
        Some(p) => if to_chars(p).len() == 0 {
            CacheAction::Record
        } else if str_eq(p, fingerprint) {
            CacheAction::Keep
        } else {
            CacheAction::DiscardAndRecord
        },
        None => CacheAction::Record,
    }
}

/// How long a source has to hold still before it is taken for complete, and how
/// long it is waited on, in milliseconds.
pub const STABLE_MS: u64 = 3_000;

pub const WAIT_MS: u64 = 300_000;

/// A source that is waited on, as it was last seen, and since when it is so.
#[derive(Debug, Clone, Copy, PartialEq, Eq, Structural)]
pub struct StableWait {
    pub size: u64,
    pub stamp: u64,
    pub since_ms: u64,
    pub start_ms: u64,
}

#[derive(Debug, Clone, Copy, PartialEq, Eq, Structural)]
pub enum WaitVerdict {
    /// The source held still for long enough.
    Ready,
    /// It has to be looked at again.
    Wait,
    /// It did not hold still in time; a later scan will try again.
    GiveUp,
}

/// A look at a source: its size, its time stamp, and the time of the look in
/// milliseconds.
#[derive(Debug, Clone, Copy, PartialEq, Eq, Structural)]
pub struct Look {
    pub size: u64,
    pub stamp: u64,
    pub now_ms: u64,
}

impl StableWait {
    /// The state after a look: a change of size or time stamp starts the time
    /// anew.
    pub open spec fn seen(self, look: Look) -> StableWait {
        if look.size == self.size && look.stamp == self.stamp {
            self
        } else {
            StableWait {
                size: look.size,
                stamp: look.stamp,
                since_ms: look.now_ms,
                start_ms: self.start_ms,
            }
        }
    }

    /// What the state says at the given time.
    pub open spec fn verdict_at(self, now_ms: u64) -> WaitVerdict {
        if self.size > 0 && now_ms >= self.since_ms + STABLE_MS {
            WaitVerdict::Ready
        } else if now_ms >= self.start_ms + WAIT_MS {
            WaitVerdict::GiveUp
        } else {
            WaitVerdict::Wait
        }
    }

    /// The state after a number of looks.
    pub open spec fn seen_all(self, looks: Seq<Look>) -> StableWait
        decreases looks.len(),
    {
        if looks.len() == 0 {
            self
        } else {
            self.seen_all(looks.drop_last()).seen(looks.last())
        }
    }

    /// The wait that begins with the given look; none for a source that is empty
    /// or missing.
    pub fn start(look: Look) -> (r: Option<StableWait>)
        ensures
            r == (if look.size == 0 {
                None
            } else {
                Some(
                    StableWait {
                        size: look.size,
                        stamp: look.stamp,
                        since_ms: look.now_ms,
                        start_ms: look.now_ms,
                    },
                )
            }),
    {
        if look.size == 0 {
            None
        } else {
            Some(
                StableWait {
                    size: look.size,
                    stamp: look.stamp,
                    since_ms: look.now_ms,
                    start_ms: look.now_ms,
                },
            )
        }
    }

    /// Takes a look into account, and says whether to go on waiting.
    pub fn observe(&mut self, look: Look) -> (r: WaitVerdict)
        ensures
            *final(self) == old(self).seen(look),
            r == old(self).seen(look).verdict_at(look.now_ms),
    {
        if look.size != self.size || look.stamp != self.stamp {
            self.size = look.size;
            self.stamp = look.stamp;
            self.since_ms = look.now_ms;
        }
        let now: u128 = look.now_ms as u128;
        if self.size > 0 && now >= self.since_ms as u128 + STABLE_MS as u128 {
            WaitVerdict::Ready
        } else if now >= self.start_ms as u128 + WAIT_MS as u128 {
            WaitVerdict::GiveUp
        } else {
            WaitVerdict::Wait
        }
    }
}

proof fn lemma_held_still(w: StableWait, looks: Seq<Look>)
    requires
        forall|i: int, j: int|
            0 <= i <= j < looks.len() ==> (#[trigger] looks[i]).now_ms <= (
            #[trigger] looks[j]).now_ms,
    ensures
        forall|i: int|
            0 <= i < looks.len() && (#[trigger] looks[i]).now_ms > w.seen_all(looks).since_ms
                ==> looks[i].size == w.seen_all(looks).size && looks[i].stamp == w.seen_all(
                looks,
            ).stamp,
        w.seen_all(looks).start_ms == w.start_ms,
    decreases looks.len(),
{
    if looks.len() > 0 {
        let init = looks.drop_last();
        assert forall|i: int, j: int| 0 <= i <= j < init.len() implies (
        #[trigger] init[i]).now_ms <= (#[trigger] init[j]).now_ms by {
            assert(init[i] == looks[i] && init[j] == looks[j]);
        }
        lemma_held_still(w, init);
        let s = w.seen_all(looks);
        assert forall|i: int|
            0 <= i < looks.len() && (#[trigger] looks[i]).now_ms > s.since_ms implies looks[i].size
            == s.size && looks[i].stamp == s.stamp by {
            let n = looks.len() - 1;
            assert(looks[n] == looks.last());
            assert(looks[i].now_ms <= looks[n].now_ms);
            if i < n {
                assert(init[i] == looks[i]);
            }
        }
    }
}

/// A source that is taken for complete had its size and its time stamp at every
/// look of the last three seconds, and is not empty.
pub proof fn ready_sources_held_still(w: StableWait, looks: Seq<Look>, i: int)
    requires
        0 <= i < looks.len(),
        forall|i: int, j: int|
            0 <= i <= j < looks.len() ==> (#[trigger] looks[i]).now_ms <= (
            #[trigger] looks[j]).now_ms,
        w.seen_all(looks).verdict_at(looks.last().now_ms) == WaitVerdict::Ready,
        looks[i].now_ms + STABLE_MS > looks.last().now_ms,
    ensures
        looks[i].size == looks.last().size,
        looks[i].stamp == looks.last().stamp,
        looks[i].size > 0,
{
    lemma_held_still(w, looks);
    let n = looks.len() - 1;
    assert(looks[n] == looks.last());
    assert(looks[n].now_ms > w.seen_all(looks).since_ms);
}

/// A source is not waited on beyond five minutes.
pub proof fn waits_end(w: StableWait, looks: Seq<Look>)
    requires
        looks.len() > 0,
        forall|i: int, j: int|
            0 <= i <= j < looks.len() ==> (#[trigger] looks[i]).now_ms <= (
            #[trigger] looks[j]).now_ms,
        looks.last().now_ms >= w.start_ms + WAIT_MS,
    ensures
        w.seen_all(looks).verdict_at(looks.last().now_ms) != WaitVerdict::Wait,
{
    lemma_held_still(w, looks);
}

/// Why a job failed.
#[derive(Debug, Clone, Copy, PartialEq, Eq, Structural)]
pub enum FailureKind {
    /// The profile cannot be read or does not meet the rules.
    Profile,
    /// The source is still being written, or is not there yet.
    SourceNotReady,
    /// A tool did not end in time.
    Timeout,
    /// The output volume is full.
    VolumeFull,
    /// There is no GPU to measure on yet.
    GpuNotReady,
    /// Anything that trying again cannot mend.
    Permanent,
}

/// True when the failure is marked, so that the file is not tried again until
/// the marker is deleted. What clears on its own, or with an edit of the
/// profile, is not.
pub fn leaves_marker(kind: FailureKind) -> (r: bool)
    ensures
        r == (kind == FailureKind::Permanent),
{
    kind == FailureKind::Permanent
}

/// An output that does not hold all frames of its chunks.
#[derive(Debug, Clone, Copy, PartialEq, Eq, Structural)]
pub struct IncompleteOutput {
    pub frames: u64,
    pub expected: u64,
}

impl IncompleteOutput {
    pub fn message(&self) -> (r: String)
        ensures
            r@ == "output holds "@ + dec(self.frames as nat) + " of "@ + dec(self.expected as nat)
                + " frames"@,
    {
        let r = plus("output holds ".to_owned(), dec_u64(self.frames).as_str());
        plus(plus(plus(r, " of "), dec_u64(self.expected).as_str()), " frames")
    }
}

/// An encode is finished only when it holds every frame of its chunks.
pub fn check_output_frames(frames: u64, expected: u64) -> (r: Result<(), IncompleteOutput>)
    ensures
        r == (if frames >= expected {
            Ok::<(), IncompleteOutput>(())
        } else {
            Err::<(), IncompleteOutput>(IncompleteOutput { frames, expected })
        }),
{
    if frames >= expected {
        Ok(())
    } else {
        Err(IncompleteOutput { frames, expected })
    }
}

/// The name of the `n`th copy of an archived file.
pub open spec fn archive_copy(name: Seq<char>, n: nat) -> Seq<char> {
    if n <= 1 {
        name
    } else {
        name + "."@ + dec(n)
    }
}

fn copy_name(name: &str, n: u64) -> (r: String)
    ensures
        r@ == archive_copy(name@, n as nat),
{
    if n <= 1 {
        name.to_owned()
    } else {
        plus(plus(name.to_owned(), "."), dec_u64(n).as_str())
    }
}

fn is_listed(list: &[String], s: &str) -> (r: bool)
    ensures
        r == views(list@).contains(s@),
{
    let mut i: usize = 0;
    while i < list.len()
        invariant
            i <= list@.len(),
            forall|k: int| 0 <= k < i ==> views(list@)[k] != s@,
        decreases list@.len() - i,
    {
        if str_eq(list[i].as_str(), s) {
            assert(views(list@)[i as int] == s@);
            return true;
        }
        i += 1;
    }
    false
}

/// The name under which a finished source is archived beside the files that are
/// there: its own, or the first free one with a number behind it.
pub fn archive_name(existing: &[String], name: &str) -> (r: String)
    requires
        existing@.len() < u64::MAX,
    ensures
        !views(existing@).contains(r@),
        exists|n: nat|
            1 <= n && r@ == #[trigger] archive_copy(name@, n) && forall|m: nat|
                1 <= m < n ==> views(existing@).contains(#[trigger] archive_copy(name@, m)),
{
    let ghost listed = views(existing@);
    let mut n: u64 = 1;
    loop
        invariant
            listed == views(existing@),
            existing@.len() < u64::MAX,
            1 <= n <= existing@.len() + 1,
            forall|m: nat| 1 <= m < n ==> listed.contains(#[trigger] archive_copy(name@, m)),
        decreases existing@.len() + 1 - n,
    {
        let candidate = copy_name(name, n);
        if !is_listed(existing, candidate.as_str()) {
            assert(candidate@ == archive_copy(name@, n as nat));
            return candidate;
        }
        proof {
            if n == existing@.len() + 1 {
                lemma_too_many_copies(listed, name@, n as nat);
            }
        }
        n += 1;
    }
}

/// All copies up to the `n`th are there.
spec fn copies_listed(listed: Seq<Seq<char>>, name: Seq<char>, n: nat) -> bool {
    forall|m: nat| 1 <= m <= n ==> listed.contains(#[trigger] archive_copy(name, m))
}

/// More copies than files cannot all be there.
proof fn lemma_too_many_copies(listed: Seq<Seq<char>>, name: Seq<char>, n: nat)
    requires
        n > listed.len(),
    ensures
        !copies_listed(listed, name, n),
    decreases n,
{
    if copies_listed(listed, name, n) {
        let last = archive_copy(name, n);
        assert(listed.contains(last));
        let i = listed.index_of(last);
        let rest = listed.remove(i);
        assert forall|m: nat| 1 <= m <= n - 1 implies rest.contains(
            #[trigger] archive_copy(name, m),
        ) by {
            let other = archive_copy(name, m);
            assert(listed.contains(other));
            lemma_copies_differ(name, m, n);
            let k = listed.index_of(other);
            if k < i {
                assert(rest[k] == other);
            } else {
                assert(rest[k - 1] == other);
            }
        }
        lemma_too_many_copies(rest, name, (n - 1) as nat);
    }
}

proof fn lemma_copies_differ(name: Seq<char>, m: nat, n: nat)
    requires
        1 <= m < n,
    ensures
        archive_copy(name, m) != archive_copy(name, n),
{
    reveal_strlit(".");
    let a = archive_copy(name, m);
    let b = archive_copy(name, n);
    crate::number::lemma_dec_digits(n);
    let head = name + "."@;
    assert(b =~= head + dec(n));
    if a == b {
        if m <= 1 {
            assert(b.len() > name.len());
        } else {
            assert(a =~= head + dec(m));
            assert(a.skip(head.len() as int) =~= dec(m));
            assert(b.skip(head.len() as int) =~= dec(n));
            crate::number::dec_injective(m, n);
        }
    }
}

/// The number that an environment variable sets, or the default.
pub fn env_number(value: Option<&str>, default: u64) -> (r: u64)
    ensures
        r == (match value {
            Some(v) => match parse_nat(v@, u64::MAX as nat) {
                Some(n) => n,
                None => default as nat,
            },
            None => default as nat,
        }),
{
    match value {
        Some(v) => match parse_u64(v) {
            Some(n) => n,
            None => default,
        },
        None => default,
    }
}

/// The seconds between two scans: what the environment sets, or a minute, and at
/// least one second.
pub fn poll_interval(value: Option<&str>) -> (r: u64)
    ensures
        r >= 1,
        r == (match value {
            Some(v) => match parse_nat(v@, u64::MAX as nat) {
                Some(n) => if n == 0 {
                    1
                } else {
                    n
                },
                None => 60,
            },
            None => 60,
        }),
{
    let n: u64 = env_number(value, 60);
    if n == 0 {
        1
    } else {
        n
    }
}

/// A picture is scaled exactly when it is taller than asked for: it never grows.
pub proof fn pictures_only_shrink(w: u32, h: u32, target: Option<u32>)
    ensures
        scaled_size(w, h, target) is Some <==> target is Some && h > target.unwrap(),
        scaled_size(w, h, target) matches Some(size) ==> size.0 <= w && size.1 < h,
{
    if let Some(th) = target {
        if h > th {
            scaling_keeps_the_proportions(w, h, th);
            let sw = scaled_size(w, h, target).unwrap().0;
            assert(sw <= w) by (nonlinear_arith)
                requires
                    sw * h <= w * th,
                    th < h,
                    sw >= 0,
                    w >= 0,
            ;
        }
    }
}

/// The part that is scaled is the crop where there is one, and else the whole picture.
pub proof fn the_crop_is_what_is_scaled(src_w: u32, src_h: u32, crop: Crop)
    ensures
        effective_size(src_w, src_h, Some(crop)) == (crop.w, crop.h),
        effective_size(src_w, src_h, None) == (src_w, src_h),
{
}

/// Scene detection sees the picture as it is encoded: cropped first, then scaled.
pub proof fn scenes_are_found_in_the_encoded_picture(crop: Seq<char>, w: u32, h: u32)
    ensures
        scene_filter(None, None) is None,
        scene_filter(Some(crop), None) == Some(crop),
        scene_filter(None, Some((w, h))) == Some(
            "scale="@ + dec(w as nat) + ":"@ + dec(h as nat),
        ),
        scene_filter(Some(crop), Some((w, h))) == Some(
            crop + ","@ + scene_filter(None, Some((w, h))).unwrap(),
        ),
{
    reveal_strlit(",scale=");
    reveal_strlit(",");
    reveal_strlit("scale=");
    assert(",scale="@ =~= ","@ + "scale="@);
    assert(crop + ",scale="@ + dec(w as nat) + ":"@ + dec(h as nat) =~= crop + ","@ + ("scale="@
        + dec(w as nat) + ":"@ + dec(h as nat)));
}

/// Key frames are five seconds apart, to within half a frame, but never less than one
/// frame.
pub proof fn key_frames_are_five_seconds_apart(fps_num: nat, fps_den: nat)
    requires
        fps_den > 0,
    ensures
        ({
            let k = keyint_for(fps_num, fps_den);
            &&& 1 <= k <= u32::MAX
            &&& 1 < k < u32::MAX ==> 2 * (k * fps_den) <= 10 * fps_num + fps_den && 10 * fps_num
                < 2 * (k * fps_den) + fps_den
            &&& k == 1 ==> 10 * fps_num < 3 * fps_den
            &&& k == u32::MAX ==> 2 * (u32::MAX as nat * fps_den) <= 10 * fps_num + fps_den
        }),
{
    crate::config::nearest_is_off_by_half_at_most(5 * fps_num, fps_den);
    let n = nearest(5 * fps_num, fps_den);
    let k = keyint_for(fps_num, fps_den);
    if k == 1 {
        assert(n * fps_den <= fps_den) by (nonlinear_arith)
            requires
                n <= 1,
                fps_den > 0,
        ;
    }
    if k == u32::MAX {
        assert(u32::MAX as nat * fps_den <= n * fps_den) by (nonlinear_arith)
            requires
                n >= u32::MAX,
                fps_den > 0,
        ;
    }
}

/// The threads are what the profile sets for the encoder, as a number or as text; where
/// it sets none, or none above zero, they are six.
pub proof fn threads_are_what_the_profile_sets(n: nat, number: i64, text: String)
    requires
        0 < n <= usize::MAX,
        text@ == dec(n),
    ensures
        threads_of(Some(ParamValue::Str(text))) == n,
        0 < number <= usize::MAX ==> threads_of(Some(ParamValue::Int(number))) == number,
        number <= 0 ==> threads_of(Some(ParamValue::Int(number))) == 6,
        threads_of(None) == 6,
{
    crate::number::parse_of_dec(n, usize::MAX as nat);
}

proof fn lemma_decimals_are_trimmed(n: nat, c: char)
    ensures
        trimmed(dec(n)) == dec(n),
        !crate::number::is_digit(c) ==> forall|i: int| 0 <= i < dec(n).len() ==> dec(n)[i] != c,
{
    crate::number::lemma_dec_digits(n);
    let s = dec(n);
    assert(crate::number::is_digit(s[0]));
    assert(crate::number::is_digit(s[s.len() - 1]));
    crate::text::trimmed_texts_stay(s);
    if !crate::number::is_digit(c) {
        assert forall|i: int| 0 <= i < s.len() implies s[i] != c by {
            assert(crate::number::is_digit(s[i]));
        }
    }
}

/// A rate that is written as a fraction or as a whole number is read as it is written,
/// and refused where a part of it is zero.
pub proof fn rates_are_read_as_written(n: u32, d: u32)
    ensures
        n > 0 && d > 0 ==> fps_of(dec(n as nat) + seq!['/'] + dec(d as nat)) == Ok::<
            (u32, u32),
            FpsError,
        >((n, d)),
        n == 0 || d == 0 ==> fps_of(dec(n as nat) + seq!['/'] + dec(d as nat)) is Err,
        n > 0 ==> fps_of(dec(n as nat)) == Ok::<(u32, u32), FpsError>((n, 1u32)),
        n == 0 ==> fps_of(dec(n as nat)) is Err,
{
    lemma_decimals_are_trimmed(n as nat, '/');
    lemma_decimals_are_trimmed(d as nat, '/');
    crate::number::parse_of_dec(n as nat, u32::MAX as nat);
    crate::number::parse_of_dec(d as nat, u32::MAX as nat);
    crate::text::texts_split_at_the_first_separator(dec(n as nat), '/', dec(d as nat));
}

/// Between two frames lie the bytes of the packet that the first of them stands for, as
/// long as the sum is in range; a packet of unknown size counts nothing.
pub proof fn frames_are_a_packet_apart(sizes: Seq<Option<String>>, n: nat)
    requires
        n < sizes.len(),
    ensures
        bytes_before(sizes, 0) == 0,
        sizes[n as int] is None ==> bytes_before(sizes, n + 1) == bytes_before(sizes, n),
        sizes[n as int] matches Some(s) ==> (parse_nat(s@, u64::MAX as nat) matches Some(size)
            ==> bytes_before(sizes, n) + size <= u64::MAX ==> bytes_before(sizes, n + 1)
            == bytes_before(sizes, n) + size),
        sizes[n as int] matches Some(s) ==> (parse_nat(s@, u64::MAX as nat) is None
            ==> bytes_before(sizes, n + 1) == bytes_before(sizes, n)),
{
    lemma_bytes_in_range(sizes, n);
}

/// The options are shown one by one, each with its own value behind an equals sign, in
/// the order in which they are passed.
pub proof fn options_are_shown_with_their_values(args: Seq<Seq<char>>, i: int)
    requires
        args.len() % 2 == 0,
        0 <= 2 * i < args.len(),
    ensures
        shown_options(args).len() == args.len() / 2,
        shown_options(args)[i] == without_dashes(args[2 * i]) + "="@ + args[2 * i + 1],
    decreases args.len(),
{
    let rest = args.skip(2);
    if i > 0 {
        options_are_shown_with_their_values(rest, i - 1);
        assert(rest[2 * (i - 1)] == args[2 * i]);
        assert(rest[2 * (i - 1) + 1] == args[2 * i + 1]);
        assert(shown_options(args)[i] == shown_options(rest)[i - 1]);
    } else if rest.len() > 0 {
        options_are_shown_with_their_values(rest, 0);
    } else {
        assert(shown_options(rest).len() == 0);
    }
}

/// A source is ready exactly when it is not empty and three seconds have passed since it
/// last changed; it is given up exactly when it is not ready and five minutes have
/// passed since it was first seen.
pub proof fn sources_are_ready_after_three_seconds(w: StableWait, now_ms: u64)
    ensures
        w.verdict_at(now_ms) == WaitVerdict::Ready <==> w.size > 0 && now_ms - w.since_ms >= 3_000,
        w.verdict_at(now_ms) == WaitVerdict::GiveUp <==> !(w.size > 0 && now_ms - w.since_ms
            >= 3_000) && now_ms - w.start_ms >= 300_000,
{
}

/// A change of the size or of the time stamp starts the three seconds anew, and nothing
/// else does; when the wait began does not change.
pub proof fn changes_start_the_wait_anew(w: StableWait, look: Look)
    ensures
        w.seen(look).size == look.size,
        w.seen(look).stamp == look.stamp,
        w.seen(look).start_ms == w.start_ms,
        look.size != w.size || look.stamp != w.stamp ==> w.seen(look).since_ms == look.now_ms,
        look.size == w.size && look.stamp == w.stamp ==> w.seen(look).since_ms == w.since_ms,
{
}

/// The first copy of an archived file has the name of the file, and the `n`th has its
/// number behind a dot; no two share a name.
pub proof fn archived_copies_are_numbered(name: Seq<char>, m: nat, n: nat)
    requires
        1 <= m < n,
    ensures
        archive_copy(name, 1) == name,
        archive_copy(name, n) == name + "."@ + dec(n),
        archive_copy(name, m) != archive_copy(name, n),
{
    lemma_copies_differ(name, m, n);
}

/// An option of the video is reported exactly when the profile sets it.
pub proof fn set_options_are_reported(a: AvxsConfig)
    ensures
        video_opts(a).contains("hdr"@) <==> a.hdr,
        video_opts(a).contains("crop"@) <==> a.crop,
        video_opts(a).contains("keyint"@) <==> a.keyint,
        video_opts(a).contains("scale"@) <==> a.scale is Some,
        video_opts(a).contains("bit_depth"@) <==> a.bit_depth is Some,
{
    reveal_strlit("hdr");
    reveal_strlit("crop");
    reveal_strlit("keyint");
    reveal_strlit("scale");
    reveal_strlit("bit_depth");
    let o1 = named_if(a.hdr, "hdr"@);
    let o2 = named_if(a.crop, "crop"@);
    let o3 = named_if(a.keyint, "keyint"@);
    let o4 = named_if(a.scale is Some, "scale"@);
    let o5 = named_if(a.bit_depth is Some, "bit_depth"@);
    let all = video_opts(a);
    let n1 = o1.len() as int;
    let n2 = n1 + o2.len();
    let n3 = n2 + o3.len();
    let n4 = n3 + o4.len();
    assert("hdr"@.len() == 3 && "crop"@.len() == 4 && "keyint"@.len() == 6);
    assert("scale"@.len() == 5 && "bit_depth"@.len() == 9);
    assert forall|i: int| 0 <= i < all.len() implies ({
        ||| a.hdr && #[trigger] all[i] == "hdr"@
        ||| a.crop && all[i] == "crop"@
        ||| a.keyint && all[i] == "keyint"@
        ||| a.scale is Some && all[i] == "scale"@
        ||| a.bit_depth is Some && all[i] == "bit_depth"@
    }) by {
        if i < n1 {
            assert(all[i] == o1[i]);
        } else if i < n2 {
            assert(all[i] == o2[i - n1]);
        } else if i < n3 {
            assert(all[i] == o3[i - n2]);
        } else if i < n4 {
            assert(all[i] == o4[i - n3]);
        } else {
            assert(all[i] == o5[i - n4]);
        }
    }
    if a.hdr {
        assert(all[0] == "hdr"@);
    }
    if a.crop {
        assert(all[n1] == "crop"@);
    }
    if a.keyint {
        assert(all[n2] == "keyint"@);
    }
    if a.scale is Some {
        assert(all[n3] == "scale"@);
    }
    if a.bit_depth is Some {
        assert(all[n4] == "bit_depth"@);
    }
}

/// A failure is marked exactly when trying again cannot mend it: not when the profile can
/// be edited, the source or a device may still come, a tool may be in time the next time,
/// or the volume be emptied.
pub proof fn what_may_clear_is_not_marked(kind: FailureKind, marked: bool)
    requires
        call_ensures(leaves_marker, (kind,), marked),
    ensures
        marked <==> kind != FailureKind::Profile && kind != FailureKind::SourceNotReady && kind
            != FailureKind::Timeout && kind != FailureKind::VolumeFull && kind
            != FailureKind::GpuNotReady,
{
}

/// Cached work is used only where the fingerprint that was recorded is the one of now,
/// and it is discarded only where another one was recorded.
pub proof fn cached_work_belongs_to_its_profile(
    previous: Option<&str>,
    fingerprint: &str,
    action: CacheAction,
)
    requires
        call_ensures(cache_action, (previous, fingerprint), action),
    ensures
        action == CacheAction::Keep <==> previous is Some && previous.unwrap()@ == fingerprint@
            && fingerprint@.len() > 0,
        action == CacheAction::DiscardAndRecord <==> previous is Some && previous.unwrap()@.len()
            > 0 && previous.unwrap()@ != fingerprint@,
{
}

/// An output is finished exactly when it holds as many frames as its chunks at least; of
/// one that does not it is told how many it holds and how many it should.
pub proof fn finished_outputs_hold_every_frame(
    frames: u64,
    expected: u64,
    r: Result<(), IncompleteOutput>,
)
    requires
        call_ensures(check_output_frames, (frames, expected), r),
    ensures
        frames < expected <==> r is Err,
        r matches Err(e) ==> e.frames == frames && e.expected == expected,
{
}

/// A number in the environment takes the place of the default, and what is no number
/// does not.
pub proof fn the_environment_sets_numbers(value: &str, default: u64, n: u64, r: u64)
    requires
        call_ensures(env_number, (Some(value), default), r),
    ensures
        value@ == dec(n as nat) ==> r == n,
        parse_nat(value@, u64::MAX as nat) is None ==> r == default,
        forall|d: u64| call_ensures(env_number, (None, default), d) ==> d == default,
{
    crate::number::parse_of_dec(n as nat, u64::MAX as nat);
}

/// Scans follow one another after the seconds that the environment sets, but after one at
/// least, and after a minute where it sets none.
pub proof fn scans_are_a_second_apart_at_least(value: &str, n: u64, r: u64)
    requires
        call_ensures(poll_interval, (Some(value),), r),
    ensures
        r >= 1,
        value@ == dec(n as nat) && n >= 1 ==> r == n,
        value@ == dec(n as nat) && n == 0 ==> r == 1,
        parse_nat(value@, u64::MAX as nat) is None ==> r == 60,
        forall|d: u64| call_ensures(poll_interval, (None,), d) ==> d == 60,
{
    crate::number::parse_of_dec(n as nat, u64::MAX as nat);
}

/// What is shown to be done is no more than is done, and less than a percent short of it:
/// nothing at the start and all of it at the end.
pub proof fn percents_are_rounded_down(frames: u64, total: u64, r: u64)
    requires
        0 < total,
        frames <= total,
        call_ensures(percent_done, (frames, total), r),
    ensures
        r * total <= frames * 100 < (r + 1) * total,
        frames == 0 ==> r == 0,
        frames == total ==> r == 100,
{
    let a = frames as nat * 100;
    let b = total as nat;
    assert(r * b <= a < (r + 1) * b) by (nonlinear_arith)
        requires
            r == a / b,
            b > 0,
    ;
    if frames == total {
        assert(r == 100) by (nonlinear_arith)
            requires
                r * b <= b * 100 < (r + 1) * b,
                b > 0,
        ;
    }
    if frames == 0 {
        assert(r == 0) by (nonlinear_arith)
            requires
                r * b <= 0,
                b > 0,
                r >= 0,
        ;
    }
}

/// A wait begins with the first look at a source that is there and not empty, and counts
/// from that look.
pub proof fn waits_begin_with_the_first_look(look: Look, r: Option<StableWait>)
    requires
        call_ensures(StableWait::start, (look,), r),
    ensures
        r is None <==> look.size == 0,
        r matches Some(w) ==> w.size == look.size && w.stamp == look.stamp && w.since_ms
            == look.now_ms && w.start_ms == look.now_ms && w.verdict_at(look.now_ms)
            == WaitVerdict::Wait,
{
}

/// The crop is read from its filter, the size to scale to follows from what the crop
/// leaves, and scene detection sees both.
pub proof fn outputs_are_cropped_and_then_scaled(
    src_w: u32,
    src_h: u32,
    text: &str,
    c: Crop,
    target: Option<u32>,
    r: (Option<(u32, u32)>, Option<Crop>, Option<String>),
)
    requires
        text@ == crate::ffms2::filter_of(c),
        call_ensures(compute_output_params, (src_w, src_h, Some(text), target), r),
    ensures
        r.1 == Some(c),
        r.0 is Some <==> target is Some && c.h > target.unwrap(),
        r.0 == scaled_size(c.w, c.h, target),
        r.0 is None ==> opt_view(r.2) == Some(text@),
        r.0 matches Some(size) ==> opt_view(r.2) == Some(
            text@ + ",scale="@ + dec(size.0 as nat) + ":"@ + dec(size.1 as nat),
        ),
{
    crate::ffms2::filter_reads_back(c);
    pictures_only_shrink(c.w, c.h, target);
}

/// Without a crop the whole picture is scaled, and scene detection sees that alone.
pub proof fn uncropped_outputs_are_scaled_whole(
    src_w: u32,
    src_h: u32,
    target: Option<u32>,
    r: (Option<(u32, u32)>, Option<Crop>, Option<String>),
)
    requires
        call_ensures(compute_output_params, (src_w, src_h, None, target), r),
    ensures
        r.1 is None,
        r.0 is Some <==> target is Some && src_h > target.unwrap(),
        r.0 == scaled_size(src_w, src_h, target),
        r.0 is None ==> r.2 is None,
        r.0 matches Some(size) ==> opt_view(r.2) == Some(
            "scale="@ + dec(size.0 as nat) + ":"@ + dec(size.1 as nat),
        ),
{
    pictures_only_shrink(src_w, src_h, target);
}

/// A sum of bytes that is out of range becomes the greatest there is.
pub proof fn sums_of_bytes_stay_in_range(sizes: Seq<Option<String>>, n: nat)
    requires
        n < sizes.len(),
    ensures
        bytes_before(sizes, n + 1) <= u64::MAX,
        sizes[n as int] matches Some(s) ==> (parse_nat(s@, u64::MAX as nat) matches Some(size)
            ==> bytes_before(sizes, n) + size > u64::MAX ==> bytes_before(sizes, n + 1)
            == u64::MAX),
{
}

/// A rate that is refused is named as it was read.
pub proof fn refused_rates_are_named(n: u32, d: u32)
    requires
        n == 0 || d == 0,
    ensures
        fps_of(dec(n as nat) + seq!['/'] + dec(d as nat)) == Err::<(u32, u32), FpsError>(
            FpsError::Invalid { num: n, den: d },
        ),
        (FpsError::Invalid { num: n, den: d }).text() == "invalid fps: "@ + (dec(n as nat) + seq![
            '/',
        ] + dec(d as nat)),
{
    reveal_strlit("/");
    lemma_decimals_are_trimmed(n as nat, '/');
    lemma_decimals_are_trimmed(d as nat, '/');
    crate::number::parse_of_dec(n as nat, u32::MAX as nat);
    crate::number::parse_of_dec(d as nat, u32::MAX as nat);
    crate::text::texts_split_at_the_first_separator(dec(n as nat), '/', dec(d as nat));
    assert("/"@ =~= seq!['/']);
    assert("invalid fps: "@ + dec(n as nat) + "/"@ + dec(d as nat) =~= "invalid fps: "@ + (dec(
        n as nat,
    ) + seq!['/'] + dec(d as nat)));
}

/// Threads that are given as text which is no number, or as something else than a number
/// or text, are six.
pub proof fn threads_that_are_no_number_are_six(text: String, flag: bool)
    requires
        parse_nat(text@, usize::MAX as nat) is None || parse_nat(text@, usize::MAX as nat) == Some(
            0nat,
        ),
    ensures
        threads_of(Some(ParamValue::Str(text))) == 6,
        threads_of(Some(ParamValue::Bool(flag))) == 6,
        threads_of(Some(ParamValue::Other(text))) == 6,
{
}

} // verus!
