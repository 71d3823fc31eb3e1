//! Black bars: what samples of the video say about them, and when that is to be
//! believed.
use vstd::prelude::*;

use crate::ffms2::{crop_of, filter_of, union_contains_both, union_of, Crop};
use crate::number::{dec, dec_u64};
use crate::text::{
    find_chars, from_chars, has_prefix, has_substring, lines, lines_of, occurs_at, plus, push_str,
    push_string, sets_behind, str_eq, to_chars, trim, trimmed, views, words, words_of,
};

verus! {

/// The places of the samples, as percentages of the runtime.
pub open spec fn sample_places() -> Seq<u64> {
    seq![10u64, 25u64, 40u64, 55u64, 70u64]
}

/// The second at which a sample begins: the given percentage of a video with
/// `frames` frames at `fps_num / fps_den` frames a second, rounded down.
pub open spec fn sample_start(frames: nat, fps_num: nat, fps_den: nat, percent: nat) -> nat {
    (frames * fps_den * percent) / (fps_num * 100)
}

/// The seconds at which the samples begin.
pub fn sample_starts(frames: u32, fps_num: u32, fps_den: u32) -> (r: Vec<u64>)
    requires
        fps_num > 0,
    ensures
        r@.len() == sample_places().len(),
        forall|i: int|
            0 <= i < r@.len() ==> #[trigger] r@[i] == sample_start(
                frames as nat,
                fps_num as nat,
                fps_den as nat,
                sample_places()[i] as nat,
            ),
{
    let places: [u64; 5] = [10, 25, 40, 55, 70];
    let mut starts: Vec<u64> = Vec::new();
    let mut i: usize = 0;
    assert(frames as nat * fps_den as nat <= 0xffff_ffff * 0xffff_ffff) by (nonlinear_arith)
        requires
            frames <= 0xffff_ffff,
            fps_den <= 0xffff_ffff,
    ;
    let ticks: u128 = frames as u128 * fps_den as u128;
    while i < 5
        invariant
            i <= 5,
            fps_num > 0,
            ticks == frames as nat * fps_den as nat,
            ticks <= 0xffff_ffff * 0xffff_ffff,
            starts@.len() == i,
            forall|k: int| 0 <= k < 5 ==> #[trigger] places@[k] == sample_places()[k],
            forall|k: int|
                0 <= k < i ==> #[trigger] starts@[k] == sample_start(
                    frames as nat,
                    fps_num as nat,
                    fps_den as nat,
                    sample_places()[k] as nat,
                ),
        decreases 5 - i,
    {
        let percent: u128 = places[i] as u128;
        assert(percent <= 70 && percent == sample_places()[i as int]);
        assert(ticks * percent <= 0xffff_ffff * 0xffff_ffff * 70) by (nonlinear_arith)
            requires
                ticks <= 0xffff_ffff * 0xffff_ffff,
                percent <= 70,
        ;
        let second: u128 = (ticks * percent) / (fps_num as u128 * 100);
        assert(second <= ticks) by (nonlinear_arith)
            requires
                second == (ticks * percent) / (fps_num * 100),
                ticks >= 0,
                0 <= percent <= 70,
                fps_num >= 1,
        ;
        starts.push(second as u64);
        i += 1;
    }
    starts
}

/// The arguments with which ffmpeg looks for black bars in a sample. The
/// threshold is a share of the brightest value, so that it fits every depth.
pub open spec fn cropdetect_args_for(seek: Seq<char>, source: Seq<char>) -> Seq<Seq<char>> {
    seq![
        "-ss"@,
        seek,
        "-i"@,
        source,
        "-map"@,
        "0:v:0"@,
        "-t"@,
        "10"@,
        "-vf"@,
        "cropdetect=0.094:2:0"@,
        "-f"@,
        "null"@,
        "-"@,
    ]
}

pub fn cropdetect_args(seek_secs: u64, source: &str) -> (r: Vec<String>)
    ensures
        views(r@) == cropdetect_args_for(dec(seek_secs as nat), source@),
{
    let mut args: Vec<String> = Vec::new();
    push_str(&mut args, "-ss");
    push_string(&mut args, dec_u64(seek_secs));
    push_str(&mut args, "-i");
    push_str(&mut args, source);
    push_str(&mut args, "-map");
    push_str(&mut args, "0:v:0");
    push_str(&mut args, "-t");
    push_str(&mut args, "10");
    push_str(&mut args, "-vf");
    push_str(&mut args, "cropdetect=0.094:2:0");
    push_str(&mut args, "-f");
    push_str(&mut args, "null");
    push_str(&mut args, "-");
    args
}

/// The rest of a text from the first `p` on.
pub open spec fn from_first(s: Seq<char>, p: Seq<char>) -> Option<Seq<char>>
    decreases s.len(),
{
    if has_prefix(s, p) {
        Some(s)
    } else if s.len() == 0 {
        None
    } else {
        from_first(s.skip(1), p)
    }
}

proof fn lemma_from_first(s: Seq<char>, p: Seq<char>, i: int)
    requires
        forall|k: int| 0 <= k < i ==> !occurs_at(s, p, k),
        occurs_at(s, p, i),
    ensures
        from_first(s, p) == Some(s.skip(i)),
    decreases i,
{
    assert(has_prefix(s, p) <==> occurs_at(s, p, 0)) by {
        if p.len() <= s.len() {
            assert(s.take(p.len() as int) =~= s.subrange(0, p.len() as int));
        }
    }
    if i == 0 {
        assert(s.skip(0) =~= s);
    } else {
        assert(!occurs_at(s, p, 0));
        let t = s.skip(1);
        assert forall|k: int| 0 <= k < i - 1 implies !occurs_at(t, p, k) by {
            if occurs_at(t, p, k) {
                assert(s.subrange(k + 1, k + 1 + p.len()) =~= t.subrange(k, k + p.len()));
                assert(occurs_at(s, p, k + 1));
            }
        }
        assert(t.subrange(i - 1, i - 1 + p.len()) =~= s.subrange(i, i + p.len()));
        lemma_from_first(t, p, i - 1);
        assert(t.skip(i - 1) =~= s.skip(i));
    }
}

proof fn lemma_from_none(s: Seq<char>, p: Seq<char>)
    requires
        !has_substring(s, p),
    ensures
        from_first(s, p) is None,
    decreases s.len(),
{
    if has_prefix(s, p) {
        assert(s.take(p.len() as int) =~= s.subrange(0, p.len() as int));
        assert(occurs_at(s, p, 0));
    } else if s.len() > 0 {
        let t = s.skip(1);
        if has_substring(t, p) {
            let k = choose|k: int| #[trigger] occurs_at(t, p, k);
            assert(s.subrange(k + 1, k + 1 + p.len()) =~= t.subrange(k, k + p.len()));
            assert(occurs_at(s, p, k + 1));
        }
        lemma_from_none(t, p);
    }
}

/// The rectangle that a line of the tool's output reports: the word that begins
/// at the first `crop=`.
pub open spec fn reported_crop(line: Seq<char>) -> Option<Crop> {
    match from_first(line, "crop="@) {
        Some(rest) if words_of(rest).len() > 0 => crop_of(words_of(rest)[0]),
        _ => None,
    }
}

/// The last rectangle that a list of lines reports.
pub open spec fn last_crop(lines: Seq<Seq<char>>) -> Option<Crop>
    decreases lines.len(),
{
    if lines.len() == 0 {
        None
    } else {
        match reported_crop(lines.last()) {
            Some(c) => Some(c),
            None => last_crop(lines.drop_last()),
        }
    }
}

fn read_line(line: &str) -> (r: Option<Crop>)
    ensures
        r == reported_crop(line@),
{
    let chars = to_chars(line);
    let needle = to_chars("crop=");
    match find_chars(&chars, &needle) {
        None => {
            proof {
                lemma_from_none(line@, "crop="@);
            }
            None
        },
        Some(i) => {
            let rest = from_chars(&chars, i, chars.len());
            proof {
                lemma_from_first(line@, "crop="@, i as int);
                assert(rest@ =~= line@.skip(i as int));
            }
            let fields = words(rest.as_str());
            assert(words_of(rest@).len() == fields@.len());
            if fields.len() == 0 {
                return None;
            }
            assert(words_of(rest@)[0] == fields@[0]@);
            Crop::from_str(fields[0].as_str())
        },
    }
}

/// The rectangle that a sample ended with, which holds all it has seen.
pub fn parse_cropdetect(output: &str) -> (r: Option<Crop>)
    ensures
        r == last_crop(lines_of(output@)),
{
    let all = lines(output);
    let ghost ls = lines_of(output@);
    let mut found: Option<Crop> = None;
    let mut i: usize = 0;
    while i < all.len()
        invariant
            i <= all@.len(),
            ls == views(all@),
            found == last_crop(ls.take(i as int)),
        decreases all@.len() - i,
    {
        assert(ls.take(i + 1).drop_last() =~= ls.take(i as int));
        assert(ls.take(i + 1).last() == all@[i as int]@);
        if let Some(c) = read_line(all[i].as_str()) {
            found = Some(c);
        }
        i += 1;
    }
    assert(ls.take(i as int) =~= ls);
    found
}

/// The union of the first rectangles of a list.
pub open spec fn united(samples: Seq<Crop>) -> Crop
    recommends
        samples.len() > 0,
    decreases samples.len(),
{
    if samples.len() <= 1 {
        samples[0]
    } else {
        union_of(united(samples.drop_last()), samples.last())
    }
}

/// What the samples together say.
#[derive(Debug, Clone, Copy, PartialEq, Eq, Structural)]
pub enum CropVerdict {
    /// Cut the picture down to this rectangle.
    Crop(Crop),
    /// There is nothing to cut.
    NoBars,
    /// The rectangle leaves so little that it has to be a mistake: the tool
    /// boxes what is not black, and of a dark scene only the lit part.
    Implausible(Crop),
}

/// No sample could be taken.
#[derive(Debug, Clone, Copy, PartialEq, Eq, Structural)]
pub struct AllSamplesFailed {
    pub failed: usize,
}

impl AllSamplesFailed {
    pub fn message(&self) -> (r: String)
        ensures
            r@ == "auto-crop: all "@ + dec(self.failed as nat) + " cropdetect samples failed"@,
    {
        let r = plus("auto-crop: all ".to_owned(), dec_u64(self.failed as u64).as_str());
        plus(r, " cropdetect samples failed")
    }
}

pub open spec fn area(c: Crop) -> nat {
    c.w as nat * c.h as nat
}

/// What to make of the union of the samples in a source of the given size: with
/// even edges it has to lie inside the source, to leave at least 40 percent of
/// the pixels and to cut away more than one percent of them.
pub open spec fn verdict(union: Option<Crop>, src_w: u32, src_h: u32) -> CropVerdict {
    match union {
        Some(u) if u.evened().inside(src_w, src_h) => {
            let c = u.evened();
            let whole = src_w as nat * src_h as nat;
            if area(c) * 100 < whole * 40 {
                CropVerdict::Implausible(c)
            } else if area(c) * 100 >= whole * 99 {
                CropVerdict::NoBars
            } else {
                CropVerdict::Crop(c)
            }
        },
        _ => CropVerdict::NoBars,
    }
}

/// Combines the samples of a source of the given size; `failed` of them could
/// not be taken. A failure says nothing about black bars.
pub fn combine_samples(samples: &[Crop], failed: usize, src_w: u32, src_h: u32) -> (r: Result<
    CropVerdict,
    AllSamplesFailed,
>)
    ensures
        samples@.len() == 0 && failed > 0 ==> r == Err::<CropVerdict, AllSamplesFailed>(
            AllSamplesFailed { failed },
        ),
        samples@.len() == 0 && failed == 0 ==> r == Ok::<CropVerdict, AllSamplesFailed>(
            CropVerdict::NoBars,
        ),
        samples@.len() > 0 ==> r == Ok::<CropVerdict, AllSamplesFailed>(
            verdict(Some(united(samples@)), src_w, src_h),
        ),
{
    if samples.len() == 0 {
        if failed > 0 {
            return Err(AllSamplesFailed { failed });
        }
        return Ok(CropVerdict::NoBars);
    }
    let mut union = samples[0];
    let mut i: usize = 1;
    assert(samples@.take(1).len() == 1);
    while i < samples.len()
        invariant
            1 <= i <= samples@.len(),
            union == united(samples@.take(i as int)),
        decreases samples@.len() - i,
    {
        assert(samples@.take(i + 1).drop_last() =~= samples@.take(i as int));
        assert(samples@.take(i + 1).last() == samples@[i as int]);
        union = union.union(samples[i]);
        i += 1;
    }
    assert(samples@.take(i as int) =~= samples@);
    match union.normalized(src_w, src_h) {
        None => Ok(CropVerdict::NoBars),
        Some(c) => {
            assert(c.w as nat * c.h as nat <= 0xffff_ffff * 0xffff_ffff && src_w as nat
                * src_h as nat <= 0xffff_ffff * 0xffff_ffff) by (nonlinear_arith)
                requires
                    c.w <= 0xffff_ffff,
                    c.h <= 0xffff_ffff,
                    src_w <= 0xffff_ffff,
                    src_h <= 0xffff_ffff,
            ;
            let kept: u128 = c.w as u128 * c.h as u128;
            let whole: u128 = src_w as u128 * src_h as u128;
            if kept * 100 < whole * 40 {
                Ok(CropVerdict::Implausible(c))
            } else if kept * 100 >= whole * 99 {
                Ok(CropVerdict::NoBars)
            } else {
                Ok(CropVerdict::Crop(c))
            }
        },
    }
}

/// The union of the samples contains each of them, so that what only one of
/// them shows is not cut away.
pub proof fn union_contains_every_sample(samples: Seq<Crop>, i: int)
    requires
        0 <= i < samples.len(),
        forall|k: int| 0 <= k < samples.len() ==> (#[trigger] samples[k]).in_range(),
    ensures
        united(samples).contains(samples[i]),
        united(samples).in_range(),
    decreases samples.len(),
{
    if samples.len() > 1 {
        let init = samples.drop_last();
        assert forall|k: int| 0 <= k < init.len() implies (#[trigger] init[k]).in_range() by {
            assert(init[k] == samples[k]);
        }
        if i < init.len() {
            union_contains_every_sample(init, i);
        } else {
            union_contains_every_sample(init, 0);
        }
        assert(samples.last().in_range());
        union_contains_both(united(init), samples.last());
    }
}

/// A rectangle that is cut to has even edges inside the source, leaves at least
/// 40 percent of its pixels and cuts away more than one percent of them.
pub proof fn crops_are_plausible(union: Option<Crop>, src_w: u32, src_h: u32)
    requires
        verdict(union, src_w, src_h) is Crop,
    ensures
        ({
            let c = verdict(union, src_w, src_h)->Crop_0;
            &&& c.normal(src_w, src_h)
            &&& area(c) * 100 >= src_w as nat * src_h as nat * 40
            &&& (src_w as nat * src_h as nat - area(c)) * 100 > src_w as nat * src_h as nat
        }),
{
}

/// What is found is kept for later runs, unless it was a mistake.
pub open spec fn cache_text(v: CropVerdict) -> Option<Seq<char>> {
    match v {
        CropVerdict::Crop(c) => Some(filter_of(c)),
        CropVerdict::NoBars => Some("none"@),
        CropVerdict::Implausible(_) => None,
    }
}

/// What a cached text says: nothing where it is empty, since that is what an
/// interrupted write leaves behind; else the filter, or that there is none.
pub open spec fn cached_filter(text: Seq<char>) -> Option<Option<Seq<char>>> {
    let t = trimmed(text);
    if text.len() == 0 {
        None
    } else if t.len() == 0 || t == "none"@ {
        Some(None)
    } else {
        Some(Some(t))
    }
}

impl CropVerdict {
    /// The filter to apply.
    pub fn filter(&self) -> (r: Option<String>)
        ensures
            crate::text::opt_view(r) == (match *self {
                CropVerdict::Crop(c) => Some(filter_of(c)),
                _ => None,
            }),
    {
        match self {
            CropVerdict::Crop(c) => Some(c.to_filter()),
            _ => None,
        }
    }

    /// The text to keep for later runs.
    pub fn cache_entry(&self) -> (r: Option<String>)
        ensures
            crate::text::opt_view(r) == cache_text(*self),
    {
        match self {
            CropVerdict::Crop(c) => Some(c.to_filter()),
            CropVerdict::NoBars => Some("none".to_owned()),
            CropVerdict::Implausible(_) => None,
        }
    }
}

/// What was kept by an earlier run: the filter to apply, or that there is none.
pub fn read_cache(text: &str) -> (r: Option<Option<String>>)
    ensures
        match cached_filter(text@) {
            None => r is None,
            Some(None) => r matches Some(None),
            Some(Some(t)) => r matches Some(Some(s)) && s@ == t,
        },
{
    let t = trim(text);
    if to_chars(text).len() == 0 {
        None
    } else if to_chars(t.as_str()).len() == 0 || str_eq(t.as_str(), "none") {
        Some(None)
    } else {
        Some(Some(t))
    }
}

/// A later run reads back what was found.
pub proof fn cache_reads_back(v: CropVerdict)
    requires
        !(v is Implausible),
    ensures
        cached_filter(cache_text(v).unwrap()) == Some(
            match v {
                CropVerdict::Crop(c) => Some(filter_of(c)),
                _ => None,
            },
        ),
{
    reveal_strlit("none");
    match v {
        CropVerdict::Crop(c) => {
            reveal_strlit("crop=");
            let s = filter_of(c);
            crate::number::lemma_dec_digits(c.y as nat);
            let y = dec(c.y as nat);
            assert(s[0] == 'c');
            assert(s.last() == y.last());
            assert(crate::number::is_digit(y[y.len() - 1]));
            lemma_trimmed(s);
            assert("none"@[0] == 'n');
        },
        _ => {
            lemma_trimmed("none"@);
        },
    }
}

proof fn lemma_trimmed(s: Seq<char>)
    requires
        s.len() > 0,
        !crate::text::is_space(s[0]),
        !crate::text::is_space(s.last()),
    ensures
        trimmed(s) == s,
{
}

/// The union of the samples, with every edge moved down to an even number, is what
/// is cut to, exactly when it is not empty, lies inside the source, leaves at least
/// 40 percent of the pixels and cuts away more than one percent of them. Nothing is
/// cut for want of black bars only where at most one percent would go, or where the
/// rectangle is empty or sticks out of the source.
pub proof fn bars_are_cut_exactly_where_they_show(union: Crop, src_w: u32, src_h: u32)
    ensures
        ({
            let w = union.w - union.w % 2;
            let h = union.h - union.h % 2;
            let x = union.x - union.x % 2;
            let y = union.y - union.y % 2;
            let inside = w > 0 && h > 0 && x + w <= src_w && y + h <= src_h;
            let whole = src_w * src_h;
            let kept = w * h;
            let v = verdict(Some(union), src_w, src_h);
            &&& v is NoBars <==> !inside || (whole - kept) * 100 <= whole
            &&& v is Implausible <==> inside && kept * 10 < whole * 4
            &&& v is Crop <==> inside && kept * 10 >= whole * 4 && (whole - kept) * 100 > whole
            &&& v matches CropVerdict::Crop(c) ==> c.w == w && c.h == h && c.x == x && c.y == y
            &&& v matches CropVerdict::Implausible(c) ==> c.w == w && c.h == h && c.x == x && c.y
                == y
        }),
{
    let w = union.w - union.w % 2;
    let h = union.h - union.h % 2;
    let kept = w * h;
    let whole = src_w * src_h;
    let c = union.evened();
    assert(area(c) == kept) by {
        assert(c.w == w && c.h == h);
    }
    assert(whole >= 0) by (nonlinear_arith)
        requires
            whole == src_w * src_h,
    ;
    if w > 0 && h > 0 && union.x - union.x % 2 + w <= src_w && union.y - union.y % 2 + h <= src_h {
        assert(0 < whole) by (nonlinear_arith)
            requires
                whole == src_w * src_h,
                src_w > 0,
                src_h > 0,
        ;
    }
}

/// Samples that all show the same rectangle are taken for that rectangle.
pub proof fn equal_samples_stand_for_one(samples: Seq<Crop>, c: Crop)
    requires
        samples.len() > 0,
        c.in_range(),
        forall|i: int| 0 <= i < samples.len() ==> #[trigger] samples[i] == c,
    ensures
        united(samples) == c,
    decreases samples.len(),
{
    if samples.len() > 1 {
        let init = samples.drop_last();
        assert forall|i: int| 0 <= i < init.len() implies #[trigger] init[i] == c by {
            assert(init[i] == samples[i]);
        }
        equal_samples_stand_for_one(init, c);
        assert(samples[samples.len() - 1] == c);
    }
}

/// A sample begins in the second that lies at its share of the runtime: not after
/// it, and less than a second before it. The samples lie at even distances from a
/// tenth of the runtime on, and none in its last third.
pub proof fn samples_begin_at_their_share(
    frames: nat,
    fps_num: nat,
    fps_den: nat,
    percent: nat,
    i: int,
)
    requires
        fps_num > 0,
        0 <= i < 5,
    ensures
        ({
            let s = sample_start(frames, fps_num, fps_den, percent);
            &&& s * fps_num * 100 <= frames * fps_den * percent
            &&& frames * fps_den * percent < (s + 1) * fps_num * 100
        }),
        sample_places().len() == 5,
        sample_places()[i] == 10 + 15 * i,
{
    let s = sample_start(frames, fps_num, fps_den, percent);
    let a = frames * fps_den * percent;
    let b = fps_num * 100;
    assert(b > 0 && s * b <= a < (s + 1) * b && s * b == s * fps_num * 100 && (s + 1) * b == (s
        + 1) * fps_num * 100) by (nonlinear_arith)
        requires
            b == fps_num * 100,
            fps_num > 0,
            s == a / b,
    ;
}

/// Black bars are looked for in ten seconds of the first video track, from the given
/// second on: the start is set before the input, so that what comes before is
/// skipped and not decoded, and nothing is written.
pub proof fn bars_are_looked_for_in_the_sample(seek: Seq<char>, source: Seq<char>)
    ensures
        ({
            let args = cropdetect_args_for(seek, source);
            &&& args.len() == 13
            &&& args[0] == "-ss"@ && args[1] == seek && args[2] == "-i"@ && args[3] == source
            &&& sets_behind(args, 3, "-map"@, "0:v:0"@)
            &&& sets_behind(args, 3, "-t"@, "10"@)
            &&& sets_behind(args, 3, "-vf"@, "cropdetect=0.094:2:0"@)
            &&& sets_behind(args, 3, "-f"@, "null"@)
            &&& args.last() == "-"@
        }),
{
    let args = cropdetect_args_for(seek, source);
    assert(args[4] == "-map"@ && args[4int + 1] == "0:v:0"@);
    assert(args[6] == "-t"@ && args[6int + 1] == "10"@);
    assert(args[8] == "-vf"@ && args[8int + 1] == "cropdetect=0.094:2:0"@);
    assert(args[10] == "-f"@ && args[10int + 1] == "null"@);
}

/// Of the rectangles that a sample reports the last one counts, since each holds all
/// that was seen before it.
pub proof fn the_last_report_counts(lines: Seq<Seq<char>>, i: int)
    requires
        0 <= i < lines.len(),
        reported_crop(lines[i]) is Some,
        forall|k: int| i < k < lines.len() ==> reported_crop(#[trigger] lines[k]) is None,
    ensures
        last_crop(lines) == reported_crop(lines[i]),
    decreases lines.len(),
{
    if i < lines.len() - 1 {
        let init = lines.drop_last();
        assert(lines[lines.len() - 1] == lines.last());
        assert forall|k: int| i < k < init.len() implies reported_crop(
            #[trigger] init[k],
        ) is None by {
            assert(init[k] == lines[k]);
        }
        the_last_report_counts(init, i);
        assert(init[i] == lines[i]);
    }
}

/// A line of the tool's output reports the rectangle whose filter stands in it as a
/// word, whatever stands before it.
pub proof fn reports_are_read(front: Seq<char>, c: Crop, rest: Seq<char>)
    requires
        rest.len() == 0 || crate::text::is_space(rest[0]),
        forall|k: int|
            0 <= k < front.len() ==> !(#[trigger] occurs_at(
                front + filter_of(c) + rest,
                "crop="@,
                k,
            )),
    ensures
        reported_crop(front + filter_of(c) + rest) == Some(c),
{
    let f = filter_of(c);
    let line = front + f + rest;
    let n = front.len() as int;
    reveal_strlit("crop=");
    reveal_strlit(":");
    assert(f.subrange(0, 5) =~= "crop="@);
    assert(line.subrange(n, n + 5) =~= f.subrange(0, 5));
    assert(occurs_at(line, "crop="@, n));
    assert forall|k: int| 0 <= k < n implies !occurs_at(line, "crop="@, k) by {}
    lemma_from_first(line, "crop="@, n);
    let t = line.skip(n);
    assert(t =~= f + rest);
    lemma_filter_has_no_space(c);
    assert(t[0] == 'c');
    assert(crate::text::trim_start(t) == t);
    assert forall|i: int| 0 <= i < f.len() implies !crate::text::is_space(#[trigger] t[i]) by {
        assert(t[i] == f[i]);
    }
    if rest.len() > 0 {
        assert(t[f.len() as int] == rest[0]);
    }
    crate::text::lemma_find_space_is(t, f.len() as int);
    assert(words_of(t)[0] == t.take(f.len() as int));
    assert(t.take(f.len() as int) =~= f);
    crate::ffms2::filter_reads_back(c);
}

proof fn lemma_filter_has_no_space(c: Crop)
    ensures
        forall|i: int|
            0 <= i < filter_of(c).len() ==> !crate::text::is_space(#[trigger] filter_of(c)[i]),
{
    reveal_strlit("crop=");
    reveal_strlit(":");
    let w = dec(c.w as nat);
    let h = dec(c.h as nat);
    let x = dec(c.x as nat);
    let y = dec(c.y as nat);
    lemma_digits_no_space(c.w as nat);
    lemma_digits_no_space(c.h as nat);
    lemma_digits_no_space(c.x as nat);
    lemma_digits_no_space(c.y as nat);
    lemma_no_space_both("crop="@, w);
    lemma_no_space_both("crop="@ + w, ":"@);
    lemma_no_space_both("crop="@ + w + ":"@, h);
    lemma_no_space_both("crop="@ + w + ":"@ + h, ":"@);
    lemma_no_space_both("crop="@ + w + ":"@ + h + ":"@, x);
    lemma_no_space_both("crop="@ + w + ":"@ + h + ":"@ + x, ":"@);
    lemma_no_space_both("crop="@ + w + ":"@ + h + ":"@ + x + ":"@, y);
}

proof fn lemma_digits_no_space(n: nat)
    ensures
        forall|i: int| 0 <= i < dec(n).len() ==> !crate::text::is_space(#[trigger] dec(n)[i]),
{
    crate::number::lemma_dec_digits(n);
    assert forall|i: int| 0 <= i < dec(n).len() implies !crate::text::is_space(
        #[trigger] dec(n)[i],
    ) by {
        assert(crate::number::is_digit(dec(n)[i]));
    }
}

proof fn lemma_no_space_both(a: Seq<char>, b: Seq<char>)
    requires
        forall|i: int| 0 <= i < a.len() ==> !crate::text::is_space(#[trigger] a[i]),
        forall|i: int| 0 <= i < b.len() ==> !crate::text::is_space(#[trigger] b[i]),
    ensures
        forall|i: int| 0 <= i < (a + b).len() ==> !crate::text::is_space(#[trigger] (a + b)[i]),
{
    let s = a + b;
    assert forall|i: int| 0 <= i < s.len() implies !crate::text::is_space(#[trigger] s[i]) by {
        if i < a.len() {
            assert(s[i] == a[i]);
        } else {
            assert(s[i] == b[i - a.len()]);
        }
    }
}

/// What was found is kept, a mistake is not; and of what was kept an empty text says
/// nothing, one of white space that there are no bars.
pub proof fn mistakes_are_not_kept(c: Crop, blank: Seq<char>)
    requires
        trimmed(blank).len() == 0,
    ensures
        cache_text(CropVerdict::Implausible(c)) is None,
        cache_text(CropVerdict::Crop(c)) is Some,
        cache_text(CropVerdict::NoBars) is Some,
        blank.len() == 0 ==> cached_filter(blank) is None,
        blank.len() > 0 ==> cached_filter(blank) == Some(None::<Seq<char>>),
{
}

/// Black bars are unknown only where every sample failed: with one that was taken, or
/// with none to take, there is a verdict, and the failed ones have no say in it.
pub proof fn failed_samples_have_no_say(
    samples: &[Crop],
    failed: usize,
    src_w: u32,
    src_h: u32,
    r: Result<CropVerdict, AllSamplesFailed>,
)
    requires
        call_ensures(combine_samples, (samples, failed, src_w, src_h), r),
    ensures
        r is Err <==> samples@.len() == 0 && failed > 0,
        r matches Err(e) ==> e.failed == failed,
        samples@.len() == 0 && failed == 0 ==> r == Ok::<CropVerdict, AllSamplesFailed>(
            CropVerdict::NoBars,
        ),
        samples@.len() > 0 ==> r == Ok::<CropVerdict, AllSamplesFailed>(
            verdict(Some(united(samples@)), src_w, src_h),
        ),
{
}

/// Where every sample shows the same rectangle with even edges inside the source, that is
/// what is cut to, as long as it leaves two fifths of the pixels and cuts away more than
/// one in a hundred.
pub proof fn agreeing_samples_are_believed(
    samples: &[Crop],
    failed: usize,
    src_w: u32,
    src_h: u32,
    r: Result<CropVerdict, AllSamplesFailed>,
    c: Crop,
)
    requires
        call_ensures(combine_samples, (samples, failed, src_w, src_h), r),
        samples@.len() > 0,
        c.in_range(),
        forall|i: int| 0 <= i < samples@.len() ==> #[trigger] samples@[i] == c,
        c.w % 2 == 0 && c.h % 2 == 0 && c.x % 2 == 0 && c.y % 2 == 0,
        0 < c.w && 0 < c.h && c.x + c.w <= src_w && c.y + c.h <= src_h,
    ensures
        ({
            let whole = src_w * src_h;
            let kept = c.w * c.h;
            &&& 5 * kept >= 2 * whole && 100 * (whole - kept) > whole ==> r == Ok::<
                CropVerdict,
                AllSamplesFailed,
            >(CropVerdict::Crop(c))
            &&& 100 * (whole - kept) <= whole ==> r == Ok::<CropVerdict, AllSamplesFailed>(
                CropVerdict::NoBars,
            )
            &&& 5 * kept < 2 * whole ==> r == Ok::<CropVerdict, AllSamplesFailed>(
                CropVerdict::Implausible(c),
            )
        }),
{
    equal_samples_stand_for_one(samples@, c);
    bars_are_cut_exactly_where_they_show(c, src_w, src_h);
    let kept = c.w * c.h;
    let whole = src_w * src_h;
    assert(0 < whole) by (nonlinear_arith)
        requires
            whole == src_w * src_h,
            src_w > 0,
            src_h > 0,
    ;
}

/// A filter is applied only where something is cut, and it is that of the rectangle.
pub proof fn only_cuts_have_a_filter(v: &CropVerdict, r: Option<String>)
    requires
        call_ensures(CropVerdict::filter, (v,), r),
    ensures
        r is Some <==> *v is Crop,
        r matches Some(s) ==> crop_of(s@) == Some(v->Crop_0),
{
    if let CropVerdict::Crop(c) = *v {
        crate::ffms2::filter_reads_back(c);
    }
}

} // verus!
