//! From scene cuts to chunks.
use vstd::prelude::*;

use crate::config::{SceneDetectionConfig, SceneDetectionSpeedConfig};
use crate::number::{dec, dec_u64};
use crate::resume::SceneEntry;
use crate::text::{opt_str, opt_view, push_str, quiet, sets, sets_behind, views};

verus! {

/// The ffmpeg filter that scales down to at most the height `h`.
pub open spec fn downscale_filter(h: nat) -> Seq<char> {
    "scale=-2:min(ih\\,"@ + dec(h) + ")"@
}

/// The filter chain for scene detection.
pub open spec fn detection_vf(base_vf: Option<Seq<char>>, downscale_height: Option<u32>) -> Option<
    Seq<char>,
> {
    match (base_vf, downscale_height) {
        (None, None) => None,
        (Some(v), None) => Some(v),
        (None, Some(h)) => Some(downscale_filter(h as nat)),
        (Some(v), Some(h)) => Some(v + ","@ + downscale_filter(h as nat)),
    }
}

pub fn build_detection_vf(base_vf: Option<&str>, downscale_height: Option<u32>) -> (r: Option<
    String,
>)
    ensures
        opt_view(r) == detection_vf(opt_str(base_vf), downscale_height),
{
    let mut out = String::new();
    match (base_vf, downscale_height) {
        (None, None) => {
            return None;
        },
        (Some(v), None) => {
            return Some(v.to_owned());
        },
        (None, Some(h)) => {
            out.append("scale=-2:min(ih\\,");
            let digits = dec_u64(h as u64);
            out.append(digits.as_str());
            out.append(")");
            assert(out@ =~= downscale_filter(h as nat));
        },
        (Some(v), Some(h)) => {
            out.append(v);
            out.append(",");
            out.append("scale=-2:min(ih\\,");
            let digits = dec_u64(h as u64);
            out.append(digits.as_str());
            out.append(")");
            assert(out@ =~= v@ + ","@ + downscale_filter(h as nat));
        },
    }
    Some(out)
}

/// The cuts behind the first frame.
pub open spec fn inner_cuts(changes: Seq<usize>) -> Seq<usize>
    decreases changes.len(),
{
    if changes.len() == 0 {
        Seq::empty()
    } else if changes.last() > 0 {
        inner_cuts(changes.drop_last()).push(changes.last())
    } else {
        inner_cuts(changes.drop_last())
    }
}

/// The first frame of each scene: the first frame of all, then every cut.
pub open spec fn scene_starts(changes: Seq<usize>) -> Seq<usize> {
    seq![0usize] + inner_cuts(changes)
}

/// The scene number `i`: it ends before the next one starts, the last one with
/// the last frame.
pub open spec fn scene_at(changes: Seq<usize>, total_frames: int, i: int) -> SceneEntry {
    let starts = scene_starts(changes);
    SceneEntry {
        index: i as usize,
        start_frame: starts[i] as u64,
        end_frame: if i + 1 < starts.len() {
            (starts[i + 1] - 1) as u64
        } else {
            (total_frames - 1) as u64
        },
    }
}

/// The scenes between the cuts of a video.
pub open spec fn scenes_between(changes: Seq<usize>, total_frames: int) -> Seq<SceneEntry> {
    Seq::new(scene_starts(changes).len(), |i: int| scene_at(changes, total_frames, i))
}

proof fn lemma_inner_cuts(changes: Seq<usize>)
    ensures
        inner_cuts(changes).len() <= changes.len(),
        forall|i: int| 0 <= i < inner_cuts(changes).len() ==> #[trigger] inner_cuts(changes)[i] > 0,
        forall|i: int|
            0 <= i < inner_cuts(changes).len() ==> changes.contains(
                #[trigger] inner_cuts(changes)[i],
            ),
    decreases changes.len(),
{
    if changes.len() > 0 {
        let init = changes.drop_last();
        lemma_inner_cuts(init);
        assert forall|i: int| 0 <= i < inner_cuts(changes).len() implies changes.contains(
            #[trigger] inner_cuts(changes)[i],
        ) by {
            if i < inner_cuts(init).len() {
                let k = init.index_of(inner_cuts(init)[i]);
                assert(init.contains(inner_cuts(init)[i]));
                assert(changes[k] == inner_cuts(changes)[i]);
            } else {
                assert(changes[changes.len() - 1] == inner_cuts(changes)[i]);
            }
        }
    }
}

/// The scenes between the cuts `scene_changes` of a video of `total_frames`
/// frames.
pub fn build_scene_entries(scene_changes: &[usize], total_frames: usize) -> (r: Vec<SceneEntry>)
    requires
        total_frames > 0,
    ensures
        r@ == scenes_between(scene_changes@, total_frames as int),
{
    let mut starts: Vec<usize> = Vec::new();
    starts.push(0);
    let mut i: usize = 0;
    assert(starts@ =~= scene_starts(scene_changes@.take(0)));
    while i < scene_changes.len()
        invariant
            i <= scene_changes@.len(),
            starts@ == scene_starts(scene_changes@.take(i as int)),
        decreases scene_changes@.len() - i,
    {
        let f: usize = scene_changes[i];
        if f > 0 {
            starts.push(f);
        }
        i += 1;
        assert(scene_changes@.take(i as int).drop_last() =~= scene_changes@.take(i - 1));
        assert(starts@ =~= scene_starts(scene_changes@.take(i as int)));
    }
    assert(scene_changes@.take(i as int) =~= scene_changes@);
    proof {
        lemma_inner_cuts(scene_changes@);
    }
    let mut r: Vec<SceneEntry> = Vec::new();
    let mut k: usize = 0;
    while k < starts.len()
        invariant
            total_frames > 0,
            starts@ == scene_starts(scene_changes@),
            forall|j: int|
                0 <= j < inner_cuts(scene_changes@).len() ==> #[trigger] inner_cuts(
                    scene_changes@,
                )[j] > 0,
            k <= starts@.len(),
            r@.len() == k,
            forall|j: int|
                0 <= j < k ==> #[trigger] r@[j] == scene_at(
                    scene_changes@,
                    total_frames as int,
                    j,
                ),
        decreases starts@.len() - k,
    {
        let end: usize = if k + 1 < starts.len() {
            assert(starts@[k + 1] == inner_cuts(scene_changes@)[k as int]);
            starts[k + 1] - 1
        } else {
            total_frames - 1
        };
        r.push(SceneEntry { index: k, start_frame: starts[k] as u64, end_frame: end as u64 });
        k += 1;
    }
    assert(r@ =~= scenes_between(scene_changes@, total_frames as int));
    r
}

/// The cuts are inside the video and ascend.
pub open spec fn cuts_ascend(changes: Seq<usize>, total_frames: int) -> bool {
    &&& forall|i: int| 0 <= i < changes.len() ==> (#[trigger] changes[i]) < total_frames
    &&& forall|i: int, j: int|
        0 <= i < j < changes.len() ==> #[trigger] changes[i] < #[trigger] changes[j]
}

/// True when the cuts are inside the video and ascend.
pub fn cuts_in_order(scene_changes: &[usize], total_frames: usize) -> (r: bool)
    ensures
        r == cuts_ascend(scene_changes@, total_frames as int),
{
    let mut i: usize = 0;
    while i < scene_changes.len()
        invariant
            i <= scene_changes@.len(),
            cuts_ascend(scene_changes@.take(i as int), total_frames as int),
        decreases scene_changes@.len() - i,
    {
        let ghost before = scene_changes@.take(i as int);
        let ghost after = scene_changes@.take(i + 1);
        assert(after[i as int] == scene_changes@[i as int]);
        if scene_changes[i] >= total_frames {
            return false;
        }
        if i > 0 && scene_changes[i - 1] >= scene_changes[i] {
            return false;
        }
        assert forall|a: int, b: int| 0 <= a < b < after.len() implies #[trigger] after[a]
            < #[trigger] after[b] by {
            assert(after[a] == before[a]);
            if b < i {
                assert(after[b] == before[b]);
            } else if a < i - 1 {
                assert(before[a] < before[i - 1]);
            }
        }
        assert forall|a: int| 0 <= a < after.len() implies (#[trigger] after[a]) < total_frames by {
            if a < i {
                assert(after[a] == before[a]);
            }
        }
        i += 1;
    }
    assert(scene_changes@.take(i as int) =~= scene_changes@);
    true
}

/// The scenes cover the frames `from..=to`: each starts behind the one before
/// it, and none is empty.
pub open spec fn covers(scenes: Seq<SceneEntry>, from: int, to: int) -> bool {
    &&& scenes.len() > 0
    &&& scenes[0].start_frame == from
    &&& scenes.last().end_frame == to
    &&& forall|i: int|
        0 <= i < scenes.len() ==> (#[trigger] scenes[i]).start_frame <= scenes[i].end_frame
    &&& forall|i: int, j: int|
        0 <= i && j == i + 1 && j < scenes.len() ==> (#[trigger] scenes[j]).start_frame == (
        #[trigger] scenes[i]).end_frame + 1
}

/// The scenes are numbered from zero on.
pub open spec fn numbered(scenes: Seq<SceneEntry>) -> bool {
    forall|i: int| 0 <= i < scenes.len() ==> (#[trigger] scenes[i]).index == i
}

/// How many chunks of at most `max` frames a scene of `len` frames needs.
pub open spec fn part_count(len: int, max: int) -> int {
    if len <= max {
        1
    } else if len % max == 0 {
        len / max
    } else {
        len / max + 1
    }
}

/// Where part `i` of `n` starts in a scene of `len` frames. The parts have
/// `len / n` frames each and the last one takes the rest, or, where it would
/// then exceed `max`, the last parts take one frame more each.
pub open spec fn part_start(len: int, n: int, max: int, i: int) -> int {
    let size = len / n;
    let rest = len % n;
    if size + rest <= max {
        if i == n {
            len
        } else {
            i * size
        }
    } else {
        i * size + (if i > n - rest {
            i - (n - rest)
        } else {
            0
        })
    }
}

/// The frames of part `i` of a scene.
pub open spec fn part_of(scene: SceneEntry, max: int, i: int) -> (int, int) {
    let n = part_count(scene.frames(), max);
    (
        scene.start_frame + part_start(scene.frames(), n, max, i),
        scene.start_frame + part_start(scene.frames(), n, max, i + 1) - 1,
    )
}

/// The first and last frames of all the parts of a scene.
pub open spec fn parts_of(scene: SceneEntry, max: int) -> Seq<(int, int)> {
    Seq::new(part_count(scene.frames(), max) as nat, |i: int| part_of(scene, max, i))
}

/// The first and last frames of all the parts of all the scenes.
pub open spec fn all_parts(scenes: Seq<SceneEntry>, max: int) -> Seq<(int, int)>
    decreases scenes.len(),
{
    if scenes.len() == 0 {
        Seq::empty()
    } else {
        all_parts(scenes.drop_last(), max) + parts_of(scenes.last(), max)
    }
}

/// The scenes `r` are the given ranges, numbered from zero on.
pub open spec fn entries_are(r: Seq<SceneEntry>, ranges: Seq<(int, int)>) -> bool {
    &&& r.len() == ranges.len()
    &&& numbered(r)
    &&& forall|i: int|
        0 <= i < r.len() ==> ((#[trigger] r[i]).start_frame as int, r[i].end_frame as int)
            == ranges[i]
}

proof fn lemma_part_count(len: int, max: int)
    requires
        len > 0,
        max > 0,
    ensures
        1 <= part_count(len, max) <= len,
        len <= part_count(len, max) * max,
{
    if len > max {
        let q = len / max;
        let m = len % max;
        assert(len == max * q + m) by (nonlinear_arith)
            requires
                max > 0,
                q == len / max,
                m == len % max,
        ;
        assert(0 <= m < max);
        assert(q >= 1) by (nonlinear_arith)
            requires
                len > max,
                max > 0,
                len == max * q + m,
                0 <= m < max,
        ;
        assert(m > 0 ==> q + 1 <= len) by (nonlinear_arith)
            requires
                len == max * q + m,
                max > 0,
                q >= 1,
        ;
        assert(q <= len) by (nonlinear_arith)
            requires
                len == max * q + m,
                max > 0,
                m >= 0,
                q >= 1,
        ;
        assert((q + 1) * max == max * q + max) by (nonlinear_arith);
        assert(q * max == max * q) by (nonlinear_arith);
    }
}

/// The parts of a scene start with it, end with it, are none of them empty,
/// and have at most `max` frames each.
proof fn lemma_part_start(len: int, n: int, max: int, i: int)
    requires
        1 <= n <= len,
        max > 0,
        len <= n * max,
        0 <= i < n,
    ensures
        part_start(len, n, max, 0) == 0,
        part_start(len, n, max, n) == len,
        0 <= part_start(len, n, max, i) < part_start(len, n, max, i + 1) <= len,
        part_start(len, n, max, i + 1) - part_start(len, n, max, i) <= max,
{
    let size = len / n;
    let rest = len % n;
    assert(len == n * size + rest && 0 <= rest < n && size >= 1) by (nonlinear_arith)
        requires
            1 <= n <= len,
            size == len / n,
            rest == len % n,
    ;
    assert((i + 1) * size == i * size + size) by (nonlinear_arith);
    assert(0 * size == 0);
    assert(0 <= i * size) by (nonlinear_arith)
        requires
            i >= 0,
            size >= 1,
    ;
    assert((i + 1) * size <= n * size) by (nonlinear_arith)
        requires
            i + 1 <= n,
            size >= 1,
    ;
    if size + rest <= max {
        if i + 1 == n {
            assert(i * size == n * size - size) by (nonlinear_arith)
                requires
                    i + 1 == n,
            ;
        }
    } else {
        assert(size <= max && (size == max ==> rest == 0)) by (nonlinear_arith)
            requires
                len == n * size + rest,
                len <= n * max,
                n >= 1,
                0 <= rest < n,
        ;
    }
}

/// Splits every scene of more than `max_frames` frames into parts of at most
/// `max_frames`, and numbers the result.
pub fn apply_extra_split(scenes: Vec<SceneEntry>, max_frames: usize) -> (r: Vec<SceneEntry>)
    requires
        max_frames > 0,
        forall|i: int|
            0 <= i < scenes@.len() ==> (#[trigger] scenes@[i]).start_frame <= scenes@[i].end_frame
                && scenes@[i].frames() <= u64::MAX,
    ensures
        entries_are(r@, all_parts(scenes@, max_frames as int)),
{
    let mut result: Vec<SceneEntry> = Vec::new();
    let max: u64 = max_frames as u64;
    let mut k: usize = 0;
    while k < scenes.len()
        invariant
            max == max_frames,
            max > 0,
            k <= scenes@.len(),
            forall|i: int|
                0 <= i < scenes@.len() ==> (#[trigger] scenes@[i]).start_frame
                    <= scenes@[i].end_frame && scenes@[i].frames() <= u64::MAX,
            entries_are(result@, all_parts(scenes@.take(k as int), max as int)),
        decreases scenes@.len() - k,
    {
        let scene = scenes[k];
        let ghost before = all_parts(scenes@.take(k as int), max as int);
        let ghost parts = parts_of(scene, max as int);
        let len: u64 = scene.end_frame - scene.start_frame + 1;
        let n: u64 = if len <= max {
            1
        } else if len % max == 0 {
            len / max
        } else {
            proof {
                lemma_part_count(len as int, max as int);
            }
            len / max + 1
        };
        proof {
            lemma_part_count(len as int, max as int);
        }
        let size: u64 = len / n;
        let rest: u64 = len % n;
        let even: bool = size > max || rest > max - size;
        let mut i: u64 = 0;
        let mut start: u64 = scene.start_frame;
        proof {
            lemma_part_start(len as int, n as int, max as int, 0);
        }
        while i < n
            invariant
                scene.start_frame <= scene.end_frame,
                len == scene.frames(),
                n == part_count(len as int, max as int),
                1 <= n <= len,
                len <= n * max,
                max > 0,
                size == len / n,
                rest == len % n,
                even == (size + rest > max),
                i <= n,
                i < n ==> start == scene.start_frame + part_start(
                    len as int,
                    n as int,
                    max as int,
                    i as int,
                ),
                parts == parts_of(scene, max as int),
                entries_are(result@, before + parts.take(i as int)),
            decreases n - i,
        {
            proof {
                lemma_part_start(len as int, n as int, max as int, i as int);
                lemma_part_start(len as int, n as int, max as int, n - 1);
                assert((i + 1) * size == i * size + size) by (nonlinear_arith);
            }
            let end: u64 = if i + 1 == n {
                scene.end_frame
            } else if even && i >= n - rest {
                start + size
            } else {
                start + (size - 1)
            };
            assert(end == scene.start_frame + part_start(
                len as int,
                n as int,
                max as int,
                i + 1,
            ) - 1);
            let index: usize = result.len();
            let ghost done = result@;
            result.push(SceneEntry { index, start_frame: start, end_frame: end });
            assert(parts[i as int] == (start as int, end as int));
            assert(before + parts.take(i + 1) =~= (before + parts.take(i as int)).push(
                parts[i as int],
            ));
            if i + 1 < n {
                proof {
                    lemma_part_start(len as int, n as int, max as int, i + 1);
                }
                start = end + 1;
            }
            i += 1;
        }
        k += 1;
        assert(parts.take(n as int) =~= parts);
        assert(scenes@.take(k as int).drop_last() =~= scenes@.take(k - 1));
        assert(scenes@.take(k as int).last() == scene);
    }
    assert(scenes@.take(k as int) =~= scenes@);
    result
}

/// The scenes between ascending cuts cover the whole video.
pub proof fn scenes_cover_the_video(changes: Seq<usize>, total_frames: int)
    requires
        0 < total_frames <= usize::MAX,
        cuts_ascend(changes, total_frames),
    ensures
        covers(scenes_between(changes, total_frames), 0, total_frames - 1),
        numbered(scenes_between(changes, total_frames)),
{
    let r = scenes_between(changes, total_frames);
    lemma_inner_cuts_ascend(changes, total_frames);
    lemma_cut_count(inner_cuts(changes), total_frames);
    let starts = scene_starts(changes);
    let cuts = inner_cuts(changes);
    assert forall|i: int| 0 <= i < r.len() implies (#[trigger] r[i]).start_frame
        <= r[i].end_frame by {
        if i + 1 < starts.len() {
            assert(starts[i + 1] == cuts[i]);
            if i > 0 {
                assert(starts[i] == cuts[i - 1]);
                assert(cuts[i - 1] < cuts[i]);
            }
        } else if i > 0 {
            assert(starts[i] == cuts[i - 1]);
        }
    }
    assert forall|i: int, j: int| 0 <= i && j == i + 1 && j < r.len() implies (
    #[trigger] r[j]).start_frame == (#[trigger] r[i]).end_frame + 1 by {
        assert(starts[j] == cuts[i]);
    }
}

/// There are fewer inner cuts than frames.
proof fn lemma_cut_count(cuts: Seq<usize>, total_frames: int)
    requires
        cuts_ascend(cuts, total_frames),
        forall|i: int| 0 <= i < cuts.len() ==> #[trigger] cuts[i] > 0,
    ensures
        cuts.len() > 0 ==> cuts.len() <= cuts.last(),
    decreases cuts.len(),
{
    if cuts.len() > 1 {
        let init = cuts.drop_last();
        lemma_cut_count(init, total_frames);
        assert(cuts[cuts.len() - 2] < cuts[cuts.len() - 1]);
        assert(init.last() == cuts[cuts.len() - 2]);
    }
}

proof fn lemma_inner_cuts_ascend(changes: Seq<usize>, total_frames: int)
    requires
        cuts_ascend(changes, total_frames),
    ensures
        cuts_ascend(inner_cuts(changes), total_frames),
        forall|i: int| 0 <= i < inner_cuts(changes).len() ==> #[trigger] inner_cuts(changes)[i] > 0,
    decreases changes.len(),
{
    lemma_inner_cuts(changes);
    if changes.len() > 0 {
        let init = changes.drop_last();
        assert(cuts_ascend(init, total_frames));
        lemma_inner_cuts_ascend(init, total_frames);
        lemma_inner_cuts(init);
        let cuts = inner_cuts(changes);
        assert forall|i: int, j: int| 0 <= i < j < cuts.len() implies #[trigger] cuts[i]
            < #[trigger] cuts[j] by {
            if j < inner_cuts(init).len() {
                assert(inner_cuts(init)[i] < inner_cuts(init)[j]);
            } else {
                assert(init.contains(inner_cuts(init)[i]));
                let k = init.index_of(inner_cuts(init)[i]);
                assert(changes[k] < changes[changes.len() - 1]);
            }
        }
    }
}

/// Splitting loses no frame and adds none: where the scenes cover a range of
/// frames, so do their parts.
pub proof fn split_keeps_every_frame(
    scenes: Seq<SceneEntry>,
    max: int,
    r: Seq<SceneEntry>,
    from: int,
    to: int,
)
    requires
        max > 0,
        covers(scenes, from, to),
        entries_are(r, all_parts(scenes, max)),
    ensures
        covers(r, from, to),
{
    lemma_all_parts(scenes, max, from, to);
    let parts = all_parts(scenes, max);
    assert(r[0].start_frame as int == parts[0].0);
    assert(r.last().end_frame as int == parts.last().1);
    assert forall|i: int| 0 <= i < r.len() implies (#[trigger] r[i]).start_frame
        <= r[i].end_frame by {
        assert(parts[i].0 <= parts[i].1);
    }
    assert forall|i: int, j: int| 0 <= i && j == i + 1 && j < r.len() implies (
    #[trigger] r[j]).start_frame == (#[trigger] r[i]).end_frame + 1 by {
        assert(parts[j].0 == parts[i].1 + 1);
    }
}

/// The ranges cover the frames `from..=to` without a gap, none of them empty
/// or longer than `max`.
spec fn ranges_cover(parts: Seq<(int, int)>, from: int, to: int, max: int) -> bool {
    &&& parts.len() > 0
    &&& parts[0].0 == from
    &&& parts.last().1 == to
    &&& forall|i: int|
        0 <= i < parts.len() ==> (#[trigger] parts[i]).0 <= parts[i].1 && parts[i].1 - parts[i].0
            + 1 <= max
    &&& forall|i: int, j: int|
        0 <= i && j == i + 1 && j < parts.len() ==> (#[trigger] parts[j]).0 == (
        #[trigger] parts[i]).1 + 1
}

proof fn lemma_parts_of(scene: SceneEntry, max: int)
    requires
        max > 0,
        scene.start_frame <= scene.end_frame,
    ensures
        ranges_cover(
            parts_of(scene, max),
            scene.start_frame as int,
            scene.end_frame as int,
            max,
        ),
{
    let len = scene.frames();
    lemma_part_count(len, max);
    let n = part_count(len, max);
    let parts = parts_of(scene, max);
    lemma_part_start(len, n, max, 0);
    lemma_part_start(len, n, max, n - 1);
    assert forall|i: int| 0 <= i < parts.len() implies (#[trigger] parts[i]).0 <= parts[i].1
        && parts[i].1 - parts[i].0 + 1 <= max by {
        lemma_part_start(len, n, max, i);
    }
}

proof fn lemma_all_parts(scenes: Seq<SceneEntry>, max: int, from: int, to: int)
    requires
        max > 0,
        covers(scenes, from, to),
    ensures
        ranges_cover(all_parts(scenes, max), from, to, max),
    decreases scenes.len(),
{
    let init = scenes.drop_last();
    let last = scenes.last();
    let tail = parts_of(last, max);
    let all = all_parts(scenes, max);
    lemma_parts_of(last, max);
    if init.len() == 0 {
        assert(all_parts(init, max) =~= Seq::<(int, int)>::empty());
        assert(all =~= tail);
    } else {
        let mid = init.last().end_frame as int;
        assert(last.start_frame == mid + 1) by {
            assert(scenes[scenes.len() - 2] == init.last());
            assert(scenes[scenes.len() - 1] == last);
        }
        assert(covers(init, from, mid)) by {
            assert forall|i: int| 0 <= i < init.len() implies (#[trigger] init[i]).start_frame
                <= init[i].end_frame by {
                assert(scenes[i] == init[i]);
            }
            assert forall|i: int, j: int| 0 <= i && j == i + 1 && j < init.len() implies (
            #[trigger] init[j]).start_frame == (#[trigger] init[i]).end_frame + 1 by {
                assert(scenes[i] == init[i]);
                assert(scenes[j] == init[j]);
            }
        }
        lemma_all_parts(init, max, from, mid);
        let head = all_parts(init, max);
        assert forall|i: int| 0 <= i < all.len() implies (#[trigger] all[i]).0 <= all[i].1
            && all[i].1 - all[i].0 + 1 <= max by {
            if i < head.len() {
                assert(all[i] == head[i]);
            } else {
                assert(all[i] == tail[i - head.len()]);
            }
        }
        assert forall|i: int, j: int| 0 <= i && j == i + 1 && j < all.len() implies (
        #[trigger] all[j]).0 == (#[trigger] all[i]).1 + 1 by {
            if j < head.len() {
                assert(all[i] == head[i]);
                assert(all[j] == head[j]);
            } else if i >= head.len() {
                assert(all[i] == tail[i - head.len()]);
                assert(all[j] == tail[j - head.len()]);
            } else {
                assert(all[i] == head.last());
                assert(all[j] == tail[0]);
            }
        }
        assert(all.last() == tail.last());
        assert(all[0] == head[0]);
    }
}

/// No chunk is longer than the maximum.
pub proof fn no_chunk_exceeds_the_maximum(scenes: Seq<SceneEntry>, max: int, r: Seq<SceneEntry>)
    requires
        max > 0,
        forall|i: int|
            0 <= i < scenes.len() ==> (#[trigger] scenes[i]).start_frame <= scenes[i].end_frame,
        entries_are(r, all_parts(scenes, max)),
    ensures
        forall|i: int| 0 <= i < r.len() ==> 1 <= (#[trigger] r[i]).frames() <= max,
{
    lemma_part_lengths(scenes, max);
    assert forall|i: int| 0 <= i < r.len() implies 1 <= (#[trigger] r[i]).frames() <= max by {
        assert(all_parts(scenes, max)[i].0 <= all_parts(scenes, max)[i].1);
    }
}

proof fn lemma_part_lengths(scenes: Seq<SceneEntry>, max: int)
    requires
        max > 0,
        forall|i: int|
            0 <= i < scenes.len() ==> (#[trigger] scenes[i]).start_frame <= scenes[i].end_frame,
    ensures
        forall|i: int|
            0 <= i < all_parts(scenes, max).len() ==> (#[trigger] all_parts(scenes, max)[i]).0
                <= all_parts(scenes, max)[i].1 && all_parts(scenes, max)[i].1 - all_parts(
                scenes,
                max,
            )[i].0 + 1 <= max,
    decreases scenes.len(),
{
    if scenes.len() > 0 {
        let init = scenes.drop_last();
        assert forall|i: int| 0 <= i < init.len() implies (#[trigger] init[i]).start_frame
            <= init[i].end_frame by {
            assert(scenes[i] == init[i]);
        }
        lemma_part_lengths(init, max);
        assert(scenes[scenes.len() - 1] == scenes.last());
        lemma_parts_of(scenes.last(), max);
        let all = all_parts(scenes, max);
        let head = all_parts(init, max);
        let tail = parts_of(scenes.last(), max);
        assert forall|i: int| 0 <= i < all.len() implies (#[trigger] all[i]).0 <= all[i].1
            && all[i].1 - all[i].0 + 1 <= max by {
            if i < head.len() {
                assert(all[i] == head[i]);
            } else {
                assert(all[i] == tail[i - head.len()]);
            }
        }
    }
}

/// Why there are no scenes.
#[derive(Debug, Clone, Copy, PartialEq, Eq, Structural)]
pub enum SceneError {
    /// The detector saw no frame.
    NoFrames,
}

impl SceneError {
    pub fn message(&self) -> (r: String)
        ensures
            r@ == "scene detection: no frames processed"@,
    {
        "scene detection: no frames processed".to_owned()
    }
}

/// The arguments with which ffmpeg hands the first video track to the scene
/// detector.
pub open spec fn detection_args_for(source: Seq<char>, vf: Option<Seq<char>>) -> Seq<Seq<char>> {
    seq!["-hide_banner"@, "-loglevel"@, "error"@, "-i"@, source, "-map"@, "0:v:0"@] + (match vf {
        Some(vf) => seq!["-vf"@, vf],
        None => Seq::empty(),
    }) + seq!["-pix_fmt"@, "yuv420p"@, "-f"@, "yuv4mpegpipe"@, "pipe:1"@]
}

pub fn detection_args(source: &str, vf: Option<&str>) -> (r: Vec<String>)
    ensures
        views(r@) == detection_args_for(source@, opt_str(vf)),
{
    let mut args: Vec<String> = Vec::new();
    push_str(&mut args, "-hide_banner");
    push_str(&mut args, "-loglevel");
    push_str(&mut args, "error");
    push_str(&mut args, "-i");
    push_str(&mut args, source);
    push_str(&mut args, "-map");
    push_str(&mut args, "0:v:0");
    if let Some(vf) = vf {
        push_str(&mut args, "-vf");
        push_str(&mut args, vf);
    }
    push_str(&mut args, "-pix_fmt");
    push_str(&mut args, "yuv420p");
    push_str(&mut args, "-f");
    push_str(&mut args, "yuv4mpegpipe");
    push_str(&mut args, "pipe:1");
    assert(views(args@) =~= detection_args_for(source@, opt_str(vf)));
    args
}

/// What the scene detector is asked for.
#[derive(Debug, Clone, Copy, PartialEq, Eq, Structural)]
pub struct DetectorOptions {
    pub speed: SceneDetectionSpeedConfig,
    /// Flashes are told from cuts.
    pub detect_flashes: bool,
    /// The least number of frames between two cuts.
    pub min_scenecut_distance: Option<usize>,
    /// The greatest number of frames between two cuts.
    pub max_scenecut_distance: Option<usize>,
    /// How many frames ahead the detector looks.
    pub lookahead_distance: usize,
}

/// The options of the scene detector for a profile. Long scenes are left to be
/// split later.
pub fn detector_options(cfg: &SceneDetectionConfig) -> (r: DetectorOptions)
    ensures
        r == (DetectorOptions {
            speed: cfg.speed,
            detect_flashes: true,
            min_scenecut_distance: Some(cfg.min_scene_len),
            max_scenecut_distance: None,
            lookahead_distance: 5,
        }),
{
    DetectorOptions {
        speed: cfg.speed,
        detect_flashes: true,
        min_scenecut_distance: Some(cfg.min_scene_len),
        max_scenecut_distance: None,
        lookahead_distance: 5,
    }
}

/// The chunks of a video in which the detector counted `frame_count` frames
/// and found the given cuts; `max_frames` bounds the length of a chunk.
pub fn chunk_scenes(
    scene_changes: &[usize],
    frame_count: usize,
    max_frames: Option<usize>,
) -> (r: Result<Vec<SceneEntry>, SceneError>)
    requires
        max_frames matches Some(max) ==> max > 0,
        max_frames is Some && frame_count > 0 ==> cuts_ascend(scene_changes@, frame_count as int),
    ensures
        r is Err <==> frame_count == 0,
        r matches Ok(chunks) ==> match max_frames {
            Some(max) => entries_are(
                chunks@,
                all_parts(scenes_between(scene_changes@, frame_count as int), max as int),
            ) && forall|i: int|
                0 <= i < chunks@.len() ==> (#[trigger] chunks@[i]).frames() <= max,
            None => chunks@ == scenes_between(scene_changes@, frame_count as int),
        },
        r matches Ok(chunks) ==> (cuts_ascend(scene_changes@, frame_count as int) ==> covers(
            chunks@,
            0,
            frame_count - 1,
        ) && numbered(chunks@)),
{
    if frame_count == 0 {
        return Err(SceneError::NoFrames);
    }
    let scenes = build_scene_entries(scene_changes, frame_count);
    let count: usize = scenes.len();
    proof {
        if cuts_ascend(scene_changes@, frame_count as int) {
            scenes_cover_the_video(scene_changes@, frame_count as int);
            lemma_covered_bounds(scenes@, 0, frame_count - 1);
        }
    }
    match max_frames {
        Some(max) => {
            let ghost whole = scenes@;
            let parts = apply_extra_split(scenes, max);
            proof {
                split_keeps_every_frame(whole, max as int, parts@, 0, frame_count - 1);
                no_chunk_exceeds_the_maximum(whole, max as int, parts@);
            }
            Ok(parts)
        },
        None => Ok(scenes),
    }
}

/// Scenes that cover a range of frames lie inside it.
pub proof fn lemma_covered_bounds(scenes: Seq<SceneEntry>, from: int, to: int)
    requires
        covers(scenes, from, to),
    ensures
        forall|i: int|
            0 <= i < scenes.len() ==> from <= (#[trigger] scenes[i]).start_frame
                && scenes[i].end_frame <= to,
    decreases scenes.len(),
{
    let init = scenes.drop_last();
    if init.len() > 0 {
        let mid = init.last().end_frame as int;
        lemma_covers_drop_last(scenes, from, to);
        lemma_covered_bounds(init, from, mid);
        assert(scenes[scenes.len() - 2] == init.last());
        assert(scenes[scenes.len() - 1] == scenes.last());
        assert forall|i: int| 0 <= i < scenes.len() implies from <= (
        #[trigger] scenes[i]).start_frame && scenes[i].end_frame <= to by {
            if i < init.len() {
                assert(scenes[i] == init[i]);
            } else {
                assert(init[init.len() - 1].end_frame <= mid);
            }
        }
    }
}

pub proof fn lemma_covers_drop_last(scenes: Seq<SceneEntry>, from: int, to: int)
    requires
        covers(scenes, from, to),
        scenes.len() > 1,
    ensures
        covers(scenes.drop_last(), from, scenes.last().start_frame - 1),
        from <= scenes.last().start_frame - 1,
        scenes.drop_last().last().end_frame == scenes.last().start_frame - 1,
    decreases scenes.len(),
{
    let init = scenes.drop_last();
    assert(scenes[scenes.len() - 2] == init.last());
    assert(scenes[scenes.len() - 1] == scenes.last());
    assert forall|i: int| 0 <= i < init.len() implies (#[trigger] init[i]).start_frame
        <= init[i].end_frame by {
        assert(scenes[i] == init[i]);
    }
    assert forall|i: int, j: int| 0 <= i && j == i + 1 && j < init.len() implies (
    #[trigger] init[j]).start_frame == (#[trigger] init[i]).end_frame + 1 by {
        assert(scenes[i] == init[i]);
        assert(scenes[j] == init[j]);
    }
    if init.len() > 1 {
        lemma_covers_drop_last(init, from, init.last().end_frame as int);
    }
}

/// The number of frames in all the scenes.
pub open spec fn frames_in(scenes: Seq<SceneEntry>) -> int
    decreases scenes.len(),
{
    if scenes.len() == 0 {
        0
    } else {
        frames_in(scenes.drop_last()) + scenes.last().frames()
    }
}

/// Scenes that cover a range of frames count exactly the frames of the range.
pub proof fn covering_scenes_count_every_frame(scenes: Seq<SceneEntry>, from: int, to: int)
    requires
        covers(scenes, from, to),
    ensures
        frames_in(scenes) == to - from + 1,
    decreases scenes.len(),
{
    let init = scenes.drop_last();
    assert(scenes[scenes.len() - 1] == scenes.last());
    if init.len() > 0 {
        lemma_covers_drop_last(scenes, from, to);
        covering_scenes_count_every_frame(init, from, scenes.last().start_frame - 1);
    } else {
        assert(frames_in(init) == 0);
    }
}

/// The scenes as far as they lie before frame `frames`: later ones are left
/// out, and one that reaches past it is cut short.
pub open spec fn clamped(scenes: Seq<SceneEntry>, frames: int) -> Seq<SceneEntry>
    decreases scenes.len(),
{
    if scenes.len() == 0 {
        Seq::empty()
    } else {
        let head = clamped(scenes.drop_last(), frames);
        let s = scenes.last();
        if s.start_frame >= frames {
            head
        } else if s.end_frame >= frames {
            head.push(SceneEntry { end_frame: (frames - 1) as u64, ..s })
        } else {
            head.push(s)
        }
    }
}

/// Clamps the scenes to the number of frames that the decoder delivers.
pub fn clamp_scenes(scenes: Vec<SceneEntry>, frames: u64) -> (r: Vec<SceneEntry>)
    ensures
        r@ == clamped(scenes@, frames as int),
{
    let mut r: Vec<SceneEntry> = Vec::new();
    let mut i: usize = 0;
    while i < scenes.len()
        invariant
            i <= scenes@.len(),
            r@ == clamped(scenes@.take(i as int), frames as int),
        decreases scenes@.len() - i,
    {
        let s = scenes[i];
        assert(scenes@.take(i + 1).drop_last() =~= scenes@.take(i as int));
        if s.start_frame < frames {
            let end: u64 = if s.end_frame >= frames {
                frames - 1
            } else {
                s.end_frame
            };
            r.push(SceneEntry { index: s.index, start_frame: s.start_frame, end_frame: end });
        }
        i += 1;
    }
    assert(scenes@.take(i as int) =~= scenes@);
    r
}

/// Clamping scenes that cover a range leaves scenes that cover the frames of
/// the range that the decoder delivers.
pub proof fn clamping_keeps_the_delivered_frames(
    scenes: Seq<SceneEntry>,
    frames: int,
    from: int,
    to: int,
)
    requires
        covers(scenes, from, to),
        from < frames <= u64::MAX,
    ensures
        covers(
            clamped(scenes, frames),
            from,
            if to < frames {
                to
            } else {
                frames - 1
            },
        ),
    decreases scenes.len(),
{
    let init = scenes.drop_last();
    let s = scenes.last();
    let r = clamped(scenes, frames);
    assert(scenes[scenes.len() - 1] == s);
    if init.len() == 0 {
        assert(clamped(init, frames) =~= Seq::<SceneEntry>::empty());
        assert(scenes[0] == s);
        assert(r.len() == 1);
    } else {
        let mid = s.start_frame - 1;
        lemma_covers_drop_last(scenes, from, to);
        clamping_keeps_the_delivered_frames(init, frames, from, mid);
        let head = clamped(init, frames);
        if s.start_frame < frames {
            assert(covers(head, from, mid));
            assert forall|i: int| 0 <= i < r.len() implies (#[trigger] r[i]).start_frame
                <= r[i].end_frame by {
                if i < head.len() {
                    assert(r[i] == head[i]);
                }
            }
            assert forall|i: int, j: int| 0 <= i && j == i + 1 && j < r.len() implies (
            #[trigger] r[j]).start_frame == (#[trigger] r[i]).end_frame + 1 by {
                assert(r[i] == head[i]);
                if j < head.len() {
                    assert(r[j] == head[j]);
                } else {
                    assert(r[i] == head.last());
                }
            }
            assert(r[0] == head[0]);
        }
    }
}

/// The scenes are not empty, can be numbered, and their frames can be counted.
pub open spec fn countable(scenes: Seq<SceneEntry>) -> bool {
    &&& forall|i: int|
        0 <= i < scenes.len() ==> (#[trigger] scenes[i]).start_frame <= scenes[i].end_frame
            && scenes[i].index < usize::MAX
    &&& frames_in(scenes) <= u64::MAX
}

/// True when the scenes are not empty, can be numbered, and their frames can be
/// counted.
pub fn scenes_countable(scenes: &[SceneEntry]) -> (ok: bool)
    ensures
        ok == countable(scenes@),
{
    let mut total: u64 = 0;
    let mut i: usize = 0;
    while i < scenes.len()
        invariant
            i <= scenes@.len(),
            forall|k: int|
                0 <= k < i ==> (#[trigger] scenes@[k]).start_frame <= scenes@[k].end_frame
                    && scenes@[k].index < usize::MAX,
            total == frames_in(scenes@.take(i as int)),
        decreases scenes@.len() - i,
    {
        let s = scenes[i];
        if s.start_frame > s.end_frame || s.index == usize::MAX {
            assert(scenes@[i as int] == s);
            return false;
        }
        assert(scenes@.take(i + 1).drop_last() =~= scenes@.take(i as int));
        assert(frames_in(scenes@.take(i + 1)) == total + s.frames());
        let last: u64 = s.end_frame - s.start_frame;
        if last > u64::MAX - total || last + total == u64::MAX {
            proof {
                if countable(scenes@) {
                    lemma_frames_in_prefix(scenes@, i + 1);
                }
            }
            return false;
        }
        total = total + last + 1;
        i += 1;
    }
    assert(scenes@.take(i as int) =~= scenes@);
    true
}

/// The number of frames in all the scenes.
pub fn count_frames(scenes: &[SceneEntry]) -> (r: u64)
    requires
        forall|i: int|
            0 <= i < scenes@.len() ==> (#[trigger] scenes@[i]).start_frame <= scenes@[i].end_frame,
        frames_in(scenes@) <= u64::MAX,
    ensures
        r == frames_in(scenes@),
{
    let mut r: u64 = 0;
    let mut i: usize = 0;
    while i < scenes.len()
        invariant
            forall|k: int|
                0 <= k < scenes@.len() ==> (#[trigger] scenes@[k]).start_frame
                    <= scenes@[k].end_frame,
            frames_in(scenes@) <= u64::MAX,
            i <= scenes@.len(),
            r == frames_in(scenes@.take(i as int)),
        decreases scenes@.len() - i,
    {
        proof {
            assert(scenes@.take(i + 1).drop_last() =~= scenes@.take(i as int));
            assert(scenes@.take(i as int).len() == i);
            lemma_frames_in_prefix(scenes@, i + 1);
            lemma_frames_in_prefix(scenes@.take(i as int), 0);
        }
        assert(scenes@[i as int].frames() >= 1);
        r = r + scenes[i].frame_count();
        i += 1;
    }
    assert(scenes@.take(i as int) =~= scenes@);
    r
}

proof fn lemma_frames_in_prefix(scenes: Seq<SceneEntry>, n: int)
    requires
        forall|k: int|
            0 <= k < scenes.len() ==> (#[trigger] scenes[k]).start_frame <= scenes[k].end_frame,
        0 <= n <= scenes.len(),
    ensures
        0 <= frames_in(scenes.take(n)) <= frames_in(scenes),
    decreases scenes.len(),
{
    if n < scenes.len() {
        let init = scenes.drop_last();
        assert forall|k: int| 0 <= k < init.len() implies (#[trigger] init[k]).start_frame
            <= init[k].end_frame by {
            assert(scenes[k] == init[k]);
        }
        lemma_frames_in_prefix(init, n);
        assert(init.take(n) =~= scenes.take(n));
        assert(scenes[scenes.len() - 1] == scenes.last());
    } else {
        assert(scenes.take(n) =~= scenes);
        if n > 0 {
            let init = scenes.drop_last();
            assert forall|k: int| 0 <= k < init.len() implies (#[trigger] init[k]).start_frame
                <= init[k].end_frame by {
                assert(scenes[k] == init[k]);
            }
            lemma_frames_in_prefix(init, 0);
            assert(init.take(0) =~= Seq::<SceneEntry>::empty());
            assert(scenes[scenes.len() - 1] == scenes.last());
        }
    }
}

proof fn lemma_inner_cut_kept(changes: Seq<usize>, frame: usize)
    requires
        changes.contains(frame),
        frame > 0,
    ensures
        inner_cuts(changes).contains(frame),
    decreases changes.len(),
{
    let init = changes.drop_last();
    let at = choose|i: int| 0 <= i < changes.len() && changes[i] == frame;
    if at < init.len() {
        assert(init[at] == frame);
        lemma_inner_cut_kept(init, frame);
        let i = choose|i: int| 0 <= i < inner_cuts(init).len() && inner_cuts(init)[i] == frame;
        assert(inner_cuts(changes)[i] == frame);
    } else {
        let i = inner_cuts(init).len() as int;
        assert(inner_cuts(changes)[i] == frame);
    }
}

/// A scene starts at the first frame and at every cut behind it, and nowhere else.
pub proof fn every_cut_starts_a_scene(changes: Seq<usize>, total_frames: int, frame: usize)
    ensures
        (exists|i: int|
            0 <= i < scenes_between(changes, total_frames).len() && (#[trigger] scenes_between(
                changes,
                total_frames,
            )[i]).start_frame == frame) <==> frame == 0 || changes.contains(frame),
{
    let scenes = scenes_between(changes, total_frames);
    lemma_inner_cuts(changes);
    if frame == 0 {
        assert(scenes[0].start_frame == frame);
    } else if changes.contains(frame) {
        lemma_inner_cut_kept(changes, frame);
        let i = choose|i: int|
            0 <= i < inner_cuts(changes).len() && inner_cuts(changes)[i] == frame;
        assert(scene_starts(changes)[i + 1] == frame);
        assert(scenes[i + 1].start_frame == frame);
    }
    if exists|i: int| 0 <= i < scenes.len() && (#[trigger] scenes[i]).start_frame == frame {
        let i = choose|i: int| 0 <= i < scenes.len() && (#[trigger] scenes[i]).start_frame == frame;
        if i > 0 {
            assert(scene_starts(changes)[i] == inner_cuts(changes)[i - 1]);
        }
    }
}

/// A scene is split into no more parts than it takes for none to exceed the maximum.
pub proof fn scenes_are_split_no_more_than_needed(len: int, max: int)
    requires
        len > 0,
        max > 0,
    ensures
        part_count(len, max) * max >= len,
        (part_count(len, max) - 1) * max < len,
{
    lemma_part_count(len, max);
    let n = part_count(len, max);
    assert((n - 1) * max < len) by (nonlinear_arith)
        requires
            len > 0,
            max > 0,
            len <= max ==> n == 1,
            len > max && len % max == 0 ==> n == len / max,
            len > max && len % max != 0 ==> n == len / max + 1,
    ;
}

/// The parts of a scene are even: each has the whole quotient of the frames by the
/// parts, and the frames that are left over go to the last part, or, where that would
/// exceed the maximum, one each to the last parts.
pub proof fn parts_are_even(len: int, n: int, max: int, i: int)
    requires
        1 <= n <= len,
        max > 0,
        len <= n * max,
        0 <= i < n,
    ensures
        ({
            let frames = part_start(len, n, max, i + 1) - part_start(len, n, max, i);
            &&& frames >= len / n
            &&& len / n + len % n <= max && i < n - 1 ==> frames == len / n
            &&& len / n + len % n <= max && i == n - 1 ==> frames == len / n + len % n
            &&& len / n + len % n > max && i < n - len % n ==> frames == len / n
            &&& len / n + len % n > max && i >= n - len % n ==> frames == len / n + 1
        }),
{
    let size = len / n;
    let rest = len % n;
    assert((i + 1) * size == i * size + size) by (nonlinear_arith);
    assert(len == n * size + rest) by (nonlinear_arith)
        requires
            n > 0,
            size == len / n,
            rest == len % n,
    ;
    if i == n - 1 {
        assert(n * size == i * size + size) by (nonlinear_arith)
            requires
                i == n - 1,
        ;
    }
}

/// Only what lies beyond the delivered frames is lost by clamping: a scene that starts
/// there is left out, one that reaches there ends with the last delivered frame, and any
/// other stays as it is, in its place.
pub proof fn clamping_cuts_at_the_last_frame(
    scenes: Seq<SceneEntry>,
    scene: SceneEntry,
    frames: int,
)
    requires
        0 < frames <= u64::MAX,
    ensures
        scene.start_frame >= frames ==> clamped(scenes.push(scene), frames) == clamped(
            scenes,
            frames,
        ),
        scene.start_frame < frames ==> {
            let r = clamped(scenes.push(scene), frames);
            &&& r.len() == clamped(scenes, frames).len() + 1
            &&& r.drop_last() == clamped(scenes, frames)
            &&& r.last().index == scene.index
            &&& r.last().start_frame == scene.start_frame
            &&& scene.end_frame < frames ==> r.last().end_frame == scene.end_frame
            &&& scene.end_frame >= frames ==> r.last().end_frame == frames - 1
        },
        clamped(Seq::empty(), frames).len() == 0,
{
    assert(scenes.push(scene).drop_last() =~= scenes);
    if scene.start_frame < frames {
        assert(clamped(scenes.push(scene), frames).drop_last() =~= clamped(scenes, frames));
    }
}

/// Scene detection sees what the filter before it leaves, scaled down to the height that
/// is set for it where that is less.
pub proof fn detection_scales_last(base: Seq<char>, h: u32)
    ensures
        detection_vf(None, None) is None,
        detection_vf(Some(base), None) == Some(base),
        detection_vf(None, Some(h)) == Some("scale=-2:min(ih\\,"@ + dec(h as nat) + ")"@),
        detection_vf(Some(base), Some(h)) == Some(
            base + ","@ + detection_vf(None, Some(h)).unwrap(),
        ),
{
}

/// The detector is handed the first video track of the source, through the filter where
/// there is one, as plain pictures of one format on a pipe.
pub proof fn the_detector_sees_the_first_video(source: Seq<char>, vf: Seq<char>)
    ensures
        ({
            let args = detection_args_for(source, Some(vf));
            let plain = detection_args_for(source, None);
            &&& args.len() == plain.len() + 2 && plain.len() == 12
            &&& sets(args, "-i"@, source) && sets(plain, "-i"@, source)
            &&& sets(args, "-map"@, "0:v:0"@) && sets(plain, "-map"@, "0:v:0"@)
            &&& sets_behind(args, 4, "-vf"@, vf)
            &&& sets_behind(args, 4, "-pix_fmt"@, "yuv420p"@) && sets_behind(
                plain,
                4,
                "-pix_fmt"@,
                "yuv420p"@,
            )
            &&& sets_behind(args, 4, "-f"@, "yuv4mpegpipe"@) && sets_behind(
                plain,
                4,
                "-f"@,
                "yuv4mpegpipe"@,
            )
            &&& args.last() == "pipe:1"@ && plain.last() == "pipe:1"@
        }),
{
    let args = detection_args_for(source, Some(vf));
    let plain = detection_args_for(source, None);
    assert(args[3] == "-i"@ && args[3int + 1] == source);
    assert(args[5] == "-map"@ && args[5int + 1] == "0:v:0"@);
    assert(args[7] == "-vf"@ && args[7int + 1] == vf);
    assert(args[9] == "-pix_fmt"@ && args[9int + 1] == "yuv420p"@);
    assert(args[11] == "-f"@ && args[11int + 1] == "yuv4mpegpipe"@);
    assert(plain[3] == "-i"@ && plain[3int + 1] == source);
    assert(plain[5] == "-map"@ && plain[5int + 1] == "0:v:0"@);
    assert(plain[7] == "-pix_fmt"@ && plain[7int + 1] == "yuv420p"@);
    assert(plain[9] == "-f"@ && plain[9int + 1] == "yuv4mpegpipe"@);
}

/// The detector keeps cuts as far apart as the profile says, tells flashes from cuts, and
/// leaves long scenes to be split later.
pub proof fn the_detector_is_asked_for_the_profiles_scenes(
    cfg: &SceneDetectionConfig,
    r: DetectorOptions,
)
    requires
        call_ensures(detector_options, (cfg,), r),
    ensures
        r.speed == cfg.speed,
        r.min_scenecut_distance == Some(cfg.min_scene_len),
        r.max_scenecut_distance is None,
        r.detect_flashes,
        r.lookahead_distance == 5,
{
}

/// Decoding for scene detection is quiet.
pub proof fn decoding_for_detection_is_quiet(source: Seq<char>, vf: Option<Seq<char>>)
    ensures
        quiet(detection_args_for(source, vf)),
{
}

} // verus!
