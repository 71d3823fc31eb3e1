//! The plan of an encode: what follows from the profile and the source, and
//! which chunks are still to be encoded.
use vstd::prelude::*;

use crate::config::Config;
use crate::encode::{merged_args, merged_encoder_args, EncodeOptions};
use crate::ffms2::{crop_of, Crop};
use crate::fingerprint::{fingerprint_of, profile_fingerprint, profile_text, ShownNumbers};
use crate::job::{
    auto_keyint, compute_output_params, effective_size, keyint_for, scaled_size, scene_filter,
    threads_of, threads_per_worker,
};
use crate::measure::{display_model, display_model_for, hdr_args_are_hlg, selects_hlg};
use crate::resume::{chunk_done, chunk_key, ChunkInfo, DoneState, SceneEntry};
use crate::scene::frames_in;
use crate::text::{opt_str, opt_view, views};
use crate::workers::{calculate, worker_count};
use crate::y4m::VideoInfo;

verus! {

/// What an encode needs to know beyond its profile.
#[derive(Debug)]
pub struct EncodePlan {
    pub opts: EncodeOptions,
    /// The filter for scene detection.
    pub scene_vf: Option<String>,
    /// The options of the encoder.
    pub args: Vec<String>,
    /// The fingerprint of everything that cached work depends on.
    pub fingerprint: String,
    /// The display that scores are measured for.
    pub display_model: &'static str,
    pub threads_per_worker: usize,
    pub workers: usize,
}

/// The height of the part of the source that scores are measured on.
pub open spec fn measured_height(source_height: u32, crop: Option<Crop>) -> u32 {
    match crop {
        Some(c) => c.h,
        None => source_height,
    }
}

/// The plan for a source, from its profile and what was found out about it: its
/// frame rate, the encoder options for its colours, and its crop filter. The
/// machine has `cpu_cores` processors and `ram_bytes` of memory to give; `shown`
/// holds how the fractional numbers of the target quality are shown.
pub fn prepare_encode(
    config: &Config,
    info: &VideoInfo,
    fps: (u32, u32),
    hdr_args: Vec<String>,
    crop_str: Option<&str>,
    cpu_cores: usize,
    ram_bytes: u64,
    shown: &ShownNumbers,
) -> (r: EncodePlan)
    requires
        fps.1 > 0,
    ensures
        r.opts.hdr_args@ == hdr_args@,
        r.opts.fps_num == fps.0 && r.opts.fps_den == fps.1,
        r.opts.target_bit_depth == config.avxs.bit_depth,
        r.opts.keyint == (if config.avxs.keyint {
            Some(keyint_for(fps.0 as nat, fps.1 as nat) as u32)
        } else {
            None
        }),
        r.opts.crop == (match crop_str {
            Some(s) => crop_of(s@),
            None => None,
        }),
        r.opts.scale == scaled_size(
            effective_size(info.width, info.height, r.opts.crop).0,
            effective_size(info.width, info.height, r.opts.crop).1,
            config.avxs.scale,
        ),
        opt_view(r.scene_vf) == scene_filter(opt_str(crop_str), r.opts.scale),
        views(r.args@) == merged_args(*config, r.opts),
        r.fingerprint@ == fingerprint_of(
            profile_text(
                views(r.args@),
                r.opts,
                config.scene_detection,
                config.target_quality,
                *shown,
            ),
        ),
        r.display_model@ == display_model(
            measured_height(info.height, r.opts.crop) as nat,
            config.avxs.hdr,
            selects_hlg(views(hdr_args@)),
        ),
        r.threads_per_worker == threads_of(
            if config.encoder_params@.contains_key("lp"@) {
                Some(config.encoder_params@["lp"@])
            } else {
                None
            },
        ),
        r.workers == worker_count(
            *info,
            cpu_cores as nat,
            ram_bytes as nat,
            r.threads_per_worker as nat,
        ),
{
    let hlg = hdr_args_are_hlg(hdr_args.as_slice());
    let (scale, crop, scene_vf) = compute_output_params(
        info.width,
        info.height,
        crop_str,
        config.avxs.scale,
    );
    let keyint = if config.avxs.keyint {
        Some(auto_keyint(fps.0, fps.1))
    } else {
        None
    };
    let opts = EncodeOptions {
        hdr_args,
        keyint,
        scale,
        crop,
        fps_num: fps.0,
        fps_den: fps.1,
        target_bit_depth: config.avxs.bit_depth,
    };
    let args = merged_encoder_args(config, &opts);
    let fingerprint = profile_fingerprint(
        args.as_slice(),
        &opts,
        &config.scene_detection,
        config.target_quality.as_ref(),
        shown,
    );
    let height: u32 = match crop {
        Some(c) => c.h,
        None => info.height,
    };
    let display_model = display_model_for(height, config.avxs.hdr, hlg);
    let threads: usize = threads_per_worker(config.encoder_params.get("lp"));
    let workers: usize = calculate(info, cpu_cores, ram_bytes, threads);
    EncodePlan {
        opts,
        scene_vf,
        args,
        fingerprint,
        display_model,
        threads_per_worker: threads,
        workers,
    }
}

/// The chunk with the given number is done.
pub open spec fn scene_done(
    scene: SceneEntry,
    chunks: Map<Seq<char>, ChunkInfo>,
    on_disk: Option<u64>,
) -> bool {
    chunk_done(chunks, chunk_key(scene.index as nat), on_disk)
}

/// The first `n` chunks without those that are done.
pub open spec fn pending(
    scenes: Seq<SceneEntry>,
    chunks: Map<Seq<char>, ChunkInfo>,
    on_disk: Seq<Option<u64>>,
    n: nat,
) -> Seq<SceneEntry>
    decreases n,
{
    if n == 0 {
        Seq::empty()
    } else {
        let before = pending(scenes, chunks, on_disk, (n - 1) as nat);
        if scene_done(scenes[n - 1], chunks, on_disk[n - 1]) {
            before
        } else {
            before.push(scenes[n - 1])
        }
    }
}

/// The chunks that are still to be encoded.
#[derive(Debug)]
pub struct ChunkQueue {
    pub pending: Vec<SceneEntry>,
    /// The chunks and frames that are done already.
    pub done_chunks: usize,
    pub done_frames: u64,
}

/// Sorts the chunks into those that an earlier run has done and those that are
/// still to be encoded; `on_disk` holds the sizes of their files.
pub fn queue_chunks(scenes: &[SceneEntry], done: &DoneState, on_disk: &[Option<u64>]) -> (r:
    ChunkQueue)
    requires
        on_disk@.len() == scenes@.len(),
        frames_in(scenes@) <= u64::MAX,
        forall|i: int|
            0 <= i < scenes@.len() ==> (#[trigger] scenes@[i]).start_frame <= scenes@[i].end_frame
                && scenes@[i].index < usize::MAX,
    ensures
        r.pending@ == pending(scenes@, done.chunks@, on_disk@, scenes@.len()),
        r.done_chunks + r.pending@.len() == scenes@.len(),
        r.done_frames + frames_in(r.pending@) == frames_in(scenes@),
{
    let mut queue: Vec<SceneEntry> = Vec::new();
    let mut done_chunks: usize = 0;
    let mut done_frames: u64 = 0;
    let mut i: usize = 0;
    while i < scenes.len()
        invariant
            i <= scenes@.len(),
            on_disk@.len() == scenes@.len(),
            frames_in(scenes@) <= u64::MAX,
            forall|k: int|
                0 <= k < scenes@.len() ==> (#[trigger] scenes@[k]).start_frame
                    <= scenes@[k].end_frame && scenes@[k].index < usize::MAX,
            queue@ == pending(scenes@, done.chunks@, on_disk@, i as nat),
            done_chunks + queue@.len() == i,
            done_frames + frames_in(queue@) == frames_in(scenes@.take(i as int)),
        decreases scenes@.len() - i,
    {
        let scene = scenes[i];
        let ghost before = queue@;
        proof {
            assert(scenes@.take(i + 1).drop_last() =~= scenes@.take(i as int));
            assert(scenes@.take(i + 1).last() == scene);
            lemma_frames_before(scenes@, i + 1);
            lemma_frames_not_negative(before, scenes@, done.chunks@, on_disk@, i as nat);
        }
        assert(scene.frames() >= 1);
        let key = scene.padded_index();
        if done.is_done(key.as_str(), on_disk[i]) {
            done_chunks += 1;
            done_frames = done_frames + scene.frame_count();
        } else {
            queue.push(scene);
            assert(queue@.drop_last() =~= before);
        }
        i += 1;
    }
    assert(scenes@.take(i as int) =~= scenes@);
    ChunkQueue { pending: queue, done_chunks, done_frames }
}

proof fn lemma_frames_before(scenes: Seq<SceneEntry>, n: int)
    requires
        0 <= n <= scenes.len(),
        forall|k: int|
            0 <= k < scenes.len() ==> (#[trigger] scenes[k]).start_frame <= scenes[k].end_frame,
    ensures
        0 <= frames_in(scenes.take(n)) <= frames_in(scenes),
    decreases scenes.len(),
{
    if n < scenes.len() {
        lemma_frames_before(scenes.drop_last(), n);
        assert(scenes.drop_last().take(n) =~= scenes.take(n));
        assert(scenes[scenes.len() - 1].start_frame <= scenes[scenes.len() - 1].end_frame);
    } else {
        assert(scenes.take(n) =~= scenes);
        if n > 0 {
            lemma_frames_before(scenes.drop_last(), n - 1);
            assert(scenes[n - 1].start_frame <= scenes[n - 1].end_frame);
        }
    }
}

proof fn lemma_frames_not_negative(
    queue: Seq<SceneEntry>,
    scenes: Seq<SceneEntry>,
    chunks: Map<Seq<char>, ChunkInfo>,
    on_disk: Seq<Option<u64>>,
    n: nat,
)
    requires
        n <= scenes.len(),
        queue == pending(scenes, chunks, on_disk, n),
        forall|k: int|
            0 <= k < scenes.len() ==> (#[trigger] scenes[k]).start_frame <= scenes[k].end_frame,
    ensures
        0 <= frames_in(queue),
    decreases n,
{
    if n > 0 {
        let before = pending(scenes, chunks, on_disk, (n - 1) as nat);
        lemma_frames_not_negative(before, scenes, chunks, on_disk, (n - 1) as nat);
        assert(scenes[n - 1].start_frame <= scenes[n - 1].end_frame);
        if !scene_done(scenes[n - 1], chunks, on_disk[n - 1]) {
            assert(queue.drop_last() =~= before);
        }
    }
}

/// A run goes on where the last one stopped: a chunk is queued exactly when it is
/// not done.
pub proof fn only_unfinished_chunks_are_queued(
    scenes: Seq<SceneEntry>,
    chunks: Map<Seq<char>, ChunkInfo>,
    on_disk: Seq<Option<u64>>,
    n: nat,
    i: int,
)
    requires
        0 <= i < n <= scenes.len(),
        forall|a: int, b: int|
            0 <= a < b < scenes.len() ==> (#[trigger] scenes[a]).index != (
            #[trigger] scenes[b]).index,
    ensures
        pending(scenes, chunks, on_disk, n).contains(scenes[i]) <==> !scene_done(
            scenes[i],
            chunks,
            on_disk[i],
        ),
    decreases n,
{
    let before = pending(scenes, chunks, on_disk, (n - 1) as nat);
    let after = pending(scenes, chunks, on_disk, n);
    if i < n - 1 {
        only_unfinished_chunks_are_queued(scenes, chunks, on_disk, (n - 1) as nat, i);
        if before.contains(scenes[i]) {
            let k = before.index_of(scenes[i]);
            assert(after[k] == scenes[i]);
        }
        if after.contains(scenes[i]) {
            let k = after.index_of(scenes[i]);
            if k < before.len() {
                assert(before[k] == scenes[i]);
            } else {
                assert(scenes[n - 1].index != scenes[i].index);
            }
        }
    } else {
        lemma_pending_indices(scenes, chunks, on_disk, (n - 1) as nat, i);
        if !scene_done(scenes[i], chunks, on_disk[i]) {
            assert(after[before.len() as int] == scenes[i]);
        } else if after.contains(scenes[i]) {
            let k = after.index_of(scenes[i]);
            assert(before[k].index == scenes[i].index);
        }
    }
}

/// No chunk at or behind a position is among the queued ones before it.
proof fn lemma_pending_indices(
    scenes: Seq<SceneEntry>,
    chunks: Map<Seq<char>, ChunkInfo>,
    on_disk: Seq<Option<u64>>,
    n: nat,
    i: int,
)
    requires
        n <= i < scenes.len(),
        forall|a: int, b: int|
            0 <= a < b < scenes.len() ==> (#[trigger] scenes[a]).index != (
            #[trigger] scenes[b]).index,
    ensures
        forall|k: int|
            0 <= k < pending(scenes, chunks, on_disk, n).len() ==> (#[trigger] pending(
                scenes,
                chunks,
                on_disk,
                n,
            )[k]).index != scenes[i].index,
    decreases n,
{
    if n > 0 {
        lemma_pending_indices(scenes, chunks, on_disk, (n - 1) as nat, i);
        let before = pending(scenes, chunks, on_disk, (n - 1) as nat);
        let after = pending(scenes, chunks, on_disk, n);
        assert(scenes[n - 1].index != scenes[i].index);
        assert forall|k: int| 0 <= k < after.len() implies (#[trigger] after[k]).index
            != scenes[i].index by {
            if k < before.len() {
                assert(after[k] == before[k]);
            }
        }
    }
}

/// A chunk is done exactly when it is recorded under its own number with a size above
/// zero, and its file has that size.
pub proof fn chunks_are_done_when_their_file_is_whole(
    scene: SceneEntry,
    chunks: Map<Seq<char>, ChunkInfo>,
    on_disk: Option<u64>,
)
    ensures
        scene_done(scene, chunks, on_disk) <==> {
            let key = chunk_key(scene.index as nat);
            &&& chunks.contains_key(key)
            &&& on_disk matches Some(n) && n > 0 && n == chunks[key].size_bytes
        },
{
}

/// The chunks are queued in the order of the video.
pub proof fn queued_chunks_keep_their_order(
    scenes: Seq<SceneEntry>,
    chunks: Map<Seq<char>, ChunkInfo>,
    on_disk: Seq<Option<u64>>,
    n: nat,
)
    requires
        n <= scenes.len(),
        forall|a: int, b: int|
            0 <= a < b < scenes.len() ==> (#[trigger] scenes[a]).start_frame < (
            #[trigger] scenes[b]).start_frame,
    ensures
        forall|a: int, b: int|
            0 <= a < b < pending(scenes, chunks, on_disk, n).len() ==> (#[trigger] pending(
                scenes,
                chunks,
                on_disk,
                n,
            )[a]).start_frame < (#[trigger] pending(scenes, chunks, on_disk, n)[b]).start_frame,
        forall|a: int|
            0 <= a < pending(scenes, chunks, on_disk, n).len() && n < scenes.len() ==> (
            #[trigger] pending(scenes, chunks, on_disk, n)[a]).start_frame
                < scenes[n as int].start_frame,
    decreases n,
{
    if n > 0 {
        let m = (n - 1) as nat;
        queued_chunks_keep_their_order(scenes, chunks, on_disk, m);
        let before = pending(scenes, chunks, on_disk, m);
        let all = pending(scenes, chunks, on_disk, n);
        assert forall|a: int, b: int| 0 <= a < b < all.len() implies (
        #[trigger] all[a]).start_frame < (#[trigger] all[b]).start_frame by {
            assert(all[a] == before[a]);
            if b < before.len() {
                assert(all[b] == before[b]);
            }
        }
        if n < scenes.len() {
            assert(scenes[n - 1].start_frame < scenes[n as int].start_frame);
            assert forall|a: int| 0 <= a < all.len() implies (#[trigger] all[a]).start_frame
                < scenes[n as int].start_frame by {
                if a < before.len() {
                    assert(all[a] == before[a]);
                }
            }
        }
    }
}

/// Scores are measured on the part of the picture that is kept.
pub proof fn the_kept_part_is_measured(source_height: u32, crop: Crop)
    ensures
        measured_height(source_height, Some(crop)) == crop.h,
        measured_height(source_height, None) == source_height,
{
}

/// The plan follows the profile and the source: the options of the encoder are merged
/// from both, key frames are set only where the profile asks for it, the picture is
/// cropped and scaled, scores are measured for the display of what is left, and there are
/// as many workers as the machine has room for with the threads of the profile.
pub proof fn plans_follow_profile_and_source(
    config: &Config,
    info: &VideoInfo,
    fps: (u32, u32),
    hdr_args: Vec<String>,
    crop_str: Option<&str>,
    cpu_cores: usize,
    ram_bytes: u64,
    shown: &ShownNumbers,
    plan: EncodePlan,
)
    requires
        fps.1 > 0,
        call_ensures(
            prepare_encode,
            (config, info, fps, hdr_args, crop_str, cpu_cores, ram_bytes, shown),
            plan,
        ),
    ensures
        plan.opts.hdr_args@ == hdr_args@,
        plan.opts.fps_num == fps.0 && plan.opts.fps_den == fps.1,
        plan.opts.target_bit_depth == config.avxs.bit_depth,
        plan.opts.keyint is Some <==> config.avxs.keyint,
        plan.opts.keyint matches Some(k) ==> k == keyint_for(fps.0 as nat, fps.1 as nat),
        crop_str is None ==> plan.opts.crop is None && plan.opts.scale == scaled_size(
            info.width,
            info.height,
            config.avxs.scale,
        ),
        plan.opts.crop matches Some(c) ==> crop_of(crop_str.unwrap()@) == Some(c)
            && plan.opts.scale == scaled_size(c.w, c.h, config.avxs.scale),
        views(plan.args@) == merged_args(*config, plan.opts),
        config.avxs.hdr ==> (plan.display_model@ == "standard_hdr_hlg"@ <==> selects_hlg(
            views(hdr_args@),
        )),
        !config.avxs.hdr && plan.opts.crop is None ==> (plan.display_model@ == "standard_4k"@
            <==> info.height >= 1440),
        !config.avxs.hdr ==> (plan.opts.crop matches Some(c) ==> (plan.display_model@
            == "standard_4k"@ <==> c.h >= 1440)),
        !config.encoder_params@.contains_key("lp"@) ==> plan.threads_per_worker == 6,
        config.encoder_params@.contains_key("lp"@) ==> plan.threads_per_worker == threads_of(
            Some(config.encoder_params@["lp"@]),
        ),
        plan.workers == worker_count(
            *info,
            cpu_cores as nat,
            ram_bytes as nat,
            plan.threads_per_worker as nat,
        ),
{
    crate::measure::displays_fit_the_picture(
        measured_height(info.height, plan.opts.crop) as nat,
        config.avxs.hdr,
        selects_hlg(views(hdr_args@)),
    );
    if config.avxs.keyint {
        crate::job::key_frames_are_five_seconds_apart(fps.0 as nat, fps.1 as nat);
    }
}

} // verus!
