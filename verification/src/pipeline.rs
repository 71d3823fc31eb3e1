//! The order of a job: which step follows which, and what an output has to go
//! through before it counts as one.
use vstd::prelude::*;

use crate::config::{Config, VideoMode};

verus! {

/// What a profile says about the steps of its jobs.
#[derive(Debug, Clone, Copy, PartialEq, Eq, Structural)]
pub struct Route {
    /// The video is passed through.
    pub copy: bool,
    /// The colours of the source are looked up.
    pub hdr: bool,
    /// Black bars are looked for.
    pub crop: bool,
    /// The chunks are encoded for a target quality.
    pub quality: bool,
    /// The files of the job are kept.
    pub keep_temp: bool,
}

#[derive(Debug, Clone, Copy, PartialEq, Eq, Structural)]
pub enum Step {
    /// Wait until the source holds still.
    WaitForSource,
    CreateDirs,
    /// See whether an earlier run has left an index.
    LookForIndex,
    BuildIndex,
    OpenSource,
    ProbeRate,
    ProbeColours,
    DetectCrop,
    PlanEncode,
    /// Discard what an earlier run with another profile has left.
    DropStaleWork,
    /// See whether an earlier run has left the scenes.
    LookForScenes,
    DetectScenes,
    PlanAudio,
    FindGpu,
    EncodeChunks,
    JoinChunks,
    ProcessAudio,
    SelectSubtitles,
    /// Put the output together, under a name of its own.
    Mux,
    Validate,
    /// Give the output its final name.
    Publish,
    /// Move the source to the finished ones.
    Archive,
    /// Remove the files of the job.
    Clean,
    Done,
    Failed,
}

/// How a step ended.
#[derive(Debug, Clone, Copy, PartialEq, Eq, Structural)]
pub enum Event {
    Done,
    /// What was looked for is not there.
    Absent,
    Failed,
}

/// The step after the frame rate is known.
pub open spec fn after_rate(route: Route) -> Step {
    if route.hdr {
        Step::ProbeColours
    } else {
        after_colours(route)
    }
}

pub open spec fn after_colours(route: Route) -> Step {
    if route.crop {
        Step::DetectCrop
    } else {
        Step::PlanEncode
    }
}

pub open spec fn after_audio_plan(route: Route) -> Step {
    if route.copy {
        Step::ProcessAudio
    } else if route.quality {
        Step::FindGpu
    } else {
        Step::EncodeChunks
    }
}

/// The step that follows one that succeeded.
pub open spec fn follows(route: Route, step: Step) -> Step {
    match step {
        Step::WaitForSource => Step::CreateDirs,
        Step::CreateDirs => if route.copy {
            Step::PlanAudio
        } else {
            Step::LookForIndex
        },
        Step::LookForIndex => Step::OpenSource,
        Step::BuildIndex => Step::OpenSource,
        Step::OpenSource => Step::ProbeRate,
        Step::ProbeRate => after_rate(route),
        Step::ProbeColours => after_colours(route),
        Step::DetectCrop => Step::PlanEncode,
        Step::PlanEncode => Step::DropStaleWork,
        Step::DropStaleWork => Step::LookForScenes,
        Step::LookForScenes => Step::PlanAudio,
        Step::DetectScenes => Step::PlanAudio,
        Step::PlanAudio => after_audio_plan(route),
        Step::FindGpu => Step::EncodeChunks,
        Step::EncodeChunks => Step::JoinChunks,
        Step::JoinChunks => Step::ProcessAudio,
        Step::ProcessAudio => Step::SelectSubtitles,
        Step::SelectSubtitles => Step::Mux,
        Step::Mux => Step::Validate,
        Step::Validate => Step::Publish,
        Step::Publish => Step::Archive,
        Step::Archive => if route.keep_temp {
            Step::Done
        } else {
            Step::Clean
        },
        Step::Clean => Step::Done,
        Step::Done => Step::Done,
        Step::Failed => Step::Failed,
    }
}

/// The job has ended.
pub open spec fn is_end(step: Step) -> bool {
    step == Step::Done || step == Step::Failed
}

/// The step that follows. Only an index and the scenes may be absent, and are then
/// made; anything else that is not there fails the job.
pub open spec fn after(route: Route, step: Step, event: Event) -> Step {
    if is_end(step) {
        step
    } else {
        match event {
            Event::Done => follows(route, step),
            Event::Absent => if step == Step::LookForIndex {
                Step::BuildIndex
            } else if step == Step::LookForScenes {
                Step::DetectScenes
            } else {
                Step::Failed
            },
            Event::Failed => Step::Failed,
        }
    }
}

/// What a profile says about the steps of its jobs.
pub fn route_for(config: &Config) -> (r: Route)
    ensures
        r == (Route {
            copy: config.avxs.video == VideoMode::Copy,
            hdr: config.avxs.hdr,
            crop: config.avxs.crop,
            quality: config.target_quality is Some,
            keep_temp: config.avxs.keep_temp,
        }),
{
    Route {
        copy: config.avxs.video == VideoMode::Copy,
        hdr: config.avxs.hdr,
        crop: config.avxs.crop,
        quality: config.target_quality.is_some(),
        keep_temp: config.avxs.keep_temp,
    }
}

fn step_after_done(route: Route, step: Step) -> (r: Step)
    ensures
        r == follows(route, step),
{
    match step {
        Step::WaitForSource => Step::CreateDirs,
        Step::CreateDirs => if route.copy {
            Step::PlanAudio
        } else {
            Step::LookForIndex
        },
        Step::LookForIndex | Step::BuildIndex => Step::OpenSource,
        Step::OpenSource => Step::ProbeRate,
        Step::ProbeRate if route.hdr => Step::ProbeColours,
        Step::ProbeRate | Step::ProbeColours => if route.crop {
            Step::DetectCrop
        } else {
            Step::PlanEncode
        },
        Step::DetectCrop => Step::PlanEncode,
        Step::PlanEncode => Step::DropStaleWork,
        Step::DropStaleWork => Step::LookForScenes,
        Step::LookForScenes | Step::DetectScenes => Step::PlanAudio,
        Step::PlanAudio if route.copy => Step::ProcessAudio,
        Step::PlanAudio if route.quality => Step::FindGpu,
        Step::PlanAudio | Step::FindGpu => Step::EncodeChunks,
        Step::EncodeChunks => Step::JoinChunks,
        Step::JoinChunks => Step::ProcessAudio,
        Step::ProcessAudio => Step::SelectSubtitles,
        Step::SelectSubtitles => Step::Mux,
        Step::Mux => Step::Validate,
        Step::Validate => Step::Publish,
        Step::Publish => Step::Archive,
        Step::Archive if !route.keep_temp => Step::Clean,
        Step::Archive | Step::Clean | Step::Done => Step::Done,
        Step::Failed => Step::Failed,
    }
}

/// The step that follows one that ended as `event` says.
pub fn next_step(route: Route, step: Step, event: Event) -> (r: Step)
    ensures
        r == after(route, step, event),
{
    match (step, event) {
        (Step::Done, _) => Step::Done,
        (_, Event::Done) => step_after_done(route, step),
        (Step::LookForIndex, Event::Absent) => Step::BuildIndex,
        (Step::LookForScenes, Event::Absent) => Step::DetectScenes,
        _ => Step::Failed,
    }
}

/// The steps of a job whose steps end as `events` says: the first one, and one more
/// for each event.
pub open spec fn steps(route: Route, events: Seq<Event>) -> Seq<Step>
    decreases events.len(),
{
    if events.len() == 0 {
        seq![Step::WaitForSource]
    } else {
        let before = steps(route, events.drop_last());
        before.push(after(route, before.last(), events.last()))
    }
}

proof fn lemma_steps(route: Route, events: Seq<Event>)
    ensures
        steps(route, events).len() == events.len() + 1,
        steps(route, events)[0] == Step::WaitForSource,
        forall|i: int|
            0 <= i < events.len() ==> #[trigger] steps(route, events)[i + 1] == after(
                route,
                steps(route, events)[i],
                events[i],
            ),
    decreases events.len(),
{
    if events.len() > 0 {
        let init = events.drop_last();
        let before = steps(route, init);
        let all = steps(route, events);
        lemma_steps(route, init);
        assert forall|i: int| 0 <= i < events.len() implies #[trigger] all[i + 1] == after(
            route,
            all[i],
            events[i],
        ) by {
            assert(all[i] == before[i]);
            if i < init.len() {
                assert(all[i + 1] == before[i + 1]);
                assert(events[i] == init[i]);
            }
        }
        assert(all[0] == before[0]);
    }
}

/// The place of a step in the order of all steps.
pub open spec fn place(step: Step) -> int {
    match step {
        Step::WaitForSource => 0,
        Step::CreateDirs => 1,
        Step::LookForIndex => 2,
        Step::BuildIndex => 3,
        Step::OpenSource => 4,
        Step::ProbeRate => 5,
        Step::ProbeColours => 6,
        Step::DetectCrop => 7,
        Step::PlanEncode => 8,
        Step::DropStaleWork => 9,
        Step::LookForScenes => 10,
        Step::DetectScenes => 11,
        Step::PlanAudio => 12,
        Step::FindGpu => 13,
        Step::EncodeChunks => 14,
        Step::JoinChunks => 15,
        Step::ProcessAudio => 16,
        Step::SelectSubtitles => 17,
        Step::Mux => 18,
        Step::Validate => 19,
        Step::Publish => 20,
        Step::Archive => 21,
        Step::Clean => 22,
        Step::Done => 23,
        Step::Failed => 23,
    }
}

/// Every job ends: none has more than two dozen steps.
pub proof fn jobs_end(route: Route, events: Seq<Event>)
    requires
        events.len() >= 23,
    ensures
        is_end(steps(route, events).last()),
{
    lemma_steps(route, events);
    lemma_moves_on(route, events, events.len() as int);
}

proof fn lemma_moves_on(route: Route, events: Seq<Event>, i: int)
    requires
        0 <= i <= events.len(),
    ensures
        is_end(steps(route, events)[i]) || place(steps(route, events)[i]) >= i,
    decreases i,
{
    lemma_steps(route, events);
    if i > 0 {
        lemma_moves_on(route, events, i - 1);
        assert(steps(route, events)[i - 1 + 1] == after(
            route,
            steps(route, events)[i - 1],
            events[i - 1],
        ));
    }
}

/// An output gets its final name only right after it was found valid.
pub proof fn published_outputs_are_valid(route: Route, events: Seq<Event>, i: int)
    requires
        0 <= i <= events.len(),
        steps(route, events)[i] == Step::Publish,
    ensures
        i > 0,
        steps(route, events)[i - 1] == Step::Validate,
        events[i - 1] == Event::Done,
{
    lemma_steps(route, events);
    assert(i > 0);
    assert(steps(route, events)[i - 1 + 1] == after(
        route,
        steps(route, events)[i - 1],
        events[i - 1],
    ));
}

/// A source leaves its place only once its output has its final name.
pub proof fn archived_sources_have_an_output(route: Route, events: Seq<Event>, i: int)
    requires
        0 <= i <= events.len(),
        steps(route, events)[i] == Step::Archive,
    ensures
        i > 0,
        steps(route, events)[i - 1] == Step::Publish,
        events[i - 1] == Event::Done,
{
    lemma_steps(route, events);
    assert(i > 0);
    assert(steps(route, events)[i - 1 + 1] == after(
        route,
        steps(route, events)[i - 1],
        events[i - 1],
    ));
}

/// The work of a job is removed only once its source was archived, and never where
/// the profile keeps it.
pub proof fn work_is_removed_last(route: Route, events: Seq<Event>, i: int)
    requires
        0 <= i <= events.len(),
        steps(route, events)[i] == Step::Clean,
    ensures
        !route.keep_temp,
        i > 0,
        steps(route, events)[i - 1] == Step::Archive,
        events[i - 1] == Event::Done,
{
    lemma_steps(route, events);
    assert(i > 0);
    assert(steps(route, events)[i - 1 + 1] == after(
        route,
        steps(route, events)[i - 1],
        events[i - 1],
    ));
}

/// A job that has failed takes no further step.
pub proof fn failed_jobs_stop(route: Route, events: Seq<Event>, i: int, j: int)
    requires
        0 <= i <= j <= events.len(),
        steps(route, events)[i] == Step::Failed,
    ensures
        steps(route, events)[j] == Step::Failed,
    decreases j - i,
{
    lemma_steps(route, events);
    if i < j {
        failed_jobs_stop(route, events, i, j - 1);
        assert(steps(route, events)[j - 1 + 1] == after(
            route,
            steps(route, events)[j - 1],
            events[j - 1],
        ));
    }
}

/// A job that succeeds takes this step. The two that depend on what an earlier run
/// has left are not told by the profile.
pub open spec fn asked(route: Route, step: Step) -> bool {
    match step {
        Step::LookForIndex => !route.copy,
        Step::OpenSource => !route.copy,
        Step::ProbeRate => !route.copy,
        Step::ProbeColours => !route.copy && route.hdr,
        Step::DetectCrop => !route.copy && route.crop,
        Step::PlanEncode => !route.copy,
        Step::DropStaleWork => !route.copy,
        Step::LookForScenes => !route.copy,
        Step::FindGpu => !route.copy && route.quality,
        Step::EncodeChunks => !route.copy,
        Step::JoinChunks => !route.copy,
        Step::Clean => !route.keep_temp,
        _ => true,
    }
}

/// The profile alone decides whether a job takes this step.
pub open spec fn told_by_profile(step: Step) -> bool {
    step != Step::BuildIndex && step != Step::DetectScenes && step != Step::Failed
}

/// The step was taken up to the `i`th one.
pub open spec fn taken(all: Seq<Step>, i: int, step: Step) -> bool {
    exists|j: int| 0 <= j <= i && #[trigger] all[j] == step
}

/// As far as it has come without failing, a job has taken exactly the steps that its
/// profile asks for. So a copied video is neither indexed nor encoded, the colours,
/// the bars and the GPU are looked for only where the profile says so, and no chunk
/// is encoded before stale work was dropped.
pub proof fn jobs_do_what_is_asked(route: Route, events: Seq<Event>, i: int, step: Step)
    requires
        0 <= i <= events.len(),
        steps(route, events)[i] != Step::Failed,
        told_by_profile(step),
    ensures
        taken(steps(route, events), i, step) <==> asked(route, step) && place(step) <= place(
            steps(route, events)[i],
        ),
    decreases i,
{
    let all = steps(route, events);
    lemma_steps(route, events);
    if i == 0 {
        assert(all[0] == Step::WaitForSource);
        if step == Step::WaitForSource {
            assert(taken(all, 0, step));
        }
    } else {
        let last = all[i - 1];
        assert(all[i - 1 + 1] == after(route, last, events[i - 1]));
        jobs_do_what_is_asked(route, events, i - 1, step);
        lemma_on_route(route, events, i - 1);
        if taken(all, i - 1, step) {
            let j = choose|j: int| 0 <= j <= i - 1 && #[trigger] all[j] == step;
            assert(all[j] == step);
        }
        if all[i] == step {
            assert(taken(all, i, step));
        }
        if taken(all, i, step) && all[i] != step {
            let j = choose|j: int| 0 <= j <= i && #[trigger] all[j] == step;
            assert(0 <= j <= i - 1 && all[j] == step);
        }
        assert(taken(all, i, step) <==> taken(all, i - 1, step) || all[i] == step);
        lemma_one_step(route, last, events[i - 1], step);
    }
}

/// A step that a job is at can be one on its route.
spec fn on_route(route: Route, step: Step) -> bool {
    match step {
        Step::BuildIndex => !route.copy,
        Step::DetectScenes => !route.copy,
        _ => asked(route, step),
    }
}

proof fn lemma_on_route(route: Route, events: Seq<Event>, i: int)
    requires
        0 <= i <= events.len(),
    ensures
        on_route(route, steps(route, events)[i]),
    decreases i,
{
    lemma_steps(route, events);
    if i > 0 {
        lemma_on_route(route, events, i - 1);
        assert(steps(route, events)[i - 1 + 1] == after(
            route,
            steps(route, events)[i - 1],
            events[i - 1],
        ));
    }
}

/// One step further, the steps that are due grow by just the one that is taken.
proof fn lemma_one_step(route: Route, last: Step, event: Event, step: Step)
    requires
        on_route(route, last),
        after(route, last, event) != Step::Failed,
        told_by_profile(step),
    ensures
        (asked(route, step) && place(step) <= place(after(route, last, event))) <==> ((asked(
            route,
            step,
        ) && place(step) <= place(last)) || after(route, last, event) == step),
{
    if last == Step::Failed {
        assert(after(route, last, event) == Step::Failed);
    }
}

/// The next thing to do for a chunk.
#[derive(Debug, Clone, Copy, PartialEq, Eq, Structural)]
pub enum ChunkStep {
    /// See whether an earlier run has solved its CRF.
    LookForCrf,
    SolveCrf,
    RecordCrf,
    Encode,
    Record,
    Done,
    Failed,
}

/// The first step of a chunk: without a target quality there is no CRF to find.
pub fn first_chunk_step(route: Route) -> (r: ChunkStep)
    ensures
        r == (if route.quality {
            ChunkStep::LookForCrf
        } else {
            ChunkStep::Encode
        }),
{
    if route.quality {
        ChunkStep::LookForCrf
    } else {
        ChunkStep::Encode
    }
}

/// The step of a chunk that follows. Only a CRF may be absent, and is then solved.
pub open spec fn chunk_after(step: ChunkStep, event: Event) -> ChunkStep {
    match (step, event) {
        (ChunkStep::Done, _) => ChunkStep::Done,
        (ChunkStep::Failed, _) => ChunkStep::Failed,
        (ChunkStep::LookForCrf, Event::Absent) => ChunkStep::SolveCrf,
        (ChunkStep::LookForCrf, Event::Done) => ChunkStep::Encode,
        (ChunkStep::SolveCrf, Event::Done) => ChunkStep::RecordCrf,
        (ChunkStep::RecordCrf, Event::Done) => ChunkStep::Encode,
        (ChunkStep::Encode, Event::Done) => ChunkStep::Record,
        (ChunkStep::Record, Event::Done) => ChunkStep::Done,
        _ => ChunkStep::Failed,
    }
}

pub fn next_chunk_step(step: ChunkStep, event: Event) -> (r: ChunkStep)
    ensures
        r == chunk_after(step, event),
{
    match (step, event) {
        (ChunkStep::Done, _) => ChunkStep::Done,
        (ChunkStep::LookForCrf, Event::Absent) => ChunkStep::SolveCrf,
        (ChunkStep::SolveCrf, Event::Done) => ChunkStep::RecordCrf,
        (ChunkStep::LookForCrf | ChunkStep::RecordCrf, Event::Done) => ChunkStep::Encode,
        (ChunkStep::Encode, Event::Done) => ChunkStep::Record,
        (ChunkStep::Record, Event::Done) => ChunkStep::Done,
        _ => ChunkStep::Failed,
    }
}

/// A chunk is recorded only right after it was encoded, so that what a later run
/// finds recorded was there. A CRF is recorded only right after it was solved, and
/// before the chunk is encoded with it.
pub proof fn chunks_are_recorded_when_encoded(step: ChunkStep, event: Event)
    ensures
        chunk_after(step, event) == ChunkStep::Record <==> step == ChunkStep::Encode && event
            == Event::Done,
        chunk_after(step, event) == ChunkStep::RecordCrf <==> step == ChunkStep::SolveCrf && event
            == Event::Done,
        step == ChunkStep::SolveCrf ==> chunk_after(step, event) != ChunkStep::Encode,
{
}

/// A step of a job comes only right after the one that it needs, and that one has
/// succeeded: but an index is built, and scenes are detected, right after they were
/// looked for and not found. What the profile does not ask for is not done.
pub proof fn steps_come_after_what_they_need(route: Route, events: Seq<Event>, i: int)
    requires
        0 < i <= events.len(),
    ensures
        ({
            let step = steps(route, events)[i];
            let last = steps(route, events)[i - 1];
            let ok = events[i - 1] == Event::Done;
            &&& step != Step::WaitForSource
            &&& step == Step::CreateDirs ==> last == Step::WaitForSource && ok
            &&& step == Step::LookForIndex ==> last == Step::CreateDirs && ok && !route.copy
            &&& step == Step::BuildIndex ==> last == Step::LookForIndex && events[i - 1]
                == Event::Absent
            &&& step == Step::OpenSource ==> (last == Step::LookForIndex || last
                == Step::BuildIndex) && ok
            &&& step == Step::ProbeRate ==> last == Step::OpenSource && ok
            &&& step == Step::ProbeColours ==> last == Step::ProbeRate && ok && route.hdr
            &&& step == Step::DetectCrop ==> ok && route.crop && (if route.hdr {
                last == Step::ProbeColours
            } else {
                last == Step::ProbeRate
            })
            &&& step == Step::PlanEncode ==> ok && (if route.crop {
                last == Step::DetectCrop
            } else if route.hdr {
                last == Step::ProbeColours
            } else {
                last == Step::ProbeRate
            })
            &&& step == Step::DropStaleWork ==> last == Step::PlanEncode && ok
            &&& step == Step::LookForScenes ==> last == Step::DropStaleWork && ok
            &&& step == Step::DetectScenes ==> last == Step::LookForScenes && events[i - 1]
                == Event::Absent
            &&& step == Step::PlanAudio ==> ok && (if route.copy {
                last == Step::CreateDirs
            } else {
                last == Step::LookForScenes || last == Step::DetectScenes
            })
            &&& step == Step::FindGpu ==> last == Step::PlanAudio && ok && route.quality
            &&& step == Step::EncodeChunks ==> ok && !route.copy && (if route.quality {
                last == Step::FindGpu
            } else {
                last == Step::PlanAudio
            })
            &&& step == Step::JoinChunks ==> last == Step::EncodeChunks && ok
            &&& step == Step::ProcessAudio ==> ok && (if route.copy {
                last == Step::PlanAudio
            } else {
                last == Step::JoinChunks
            })
            &&& step == Step::SelectSubtitles ==> last == Step::ProcessAudio && ok
            &&& step == Step::Mux ==> last == Step::SelectSubtitles && ok
            &&& step == Step::Validate ==> last == Step::Mux && ok
            &&& step == Step::Done && last != Step::Done ==> ok && (if route.keep_temp {
                last == Step::Archive
            } else {
                last == Step::Clean
            })
        }),
{
    lemma_steps(route, events);
    lemma_on_route(route, events, i - 1);
    assert(steps(route, events)[i - 1 + 1] == after(
        route,
        steps(route, events)[i - 1],
        events[i - 1],
    ));
}

/// A step that fails fails the job, and so does one that does not find what it needs,
/// unless that can be made; a step that succeeds never does.
pub proof fn failures_fail_the_job(route: Route, step: Step, event: Event)
    requires
        step != Step::Done,
        step != Step::Failed,
    ensures
        after(route, step, event) == Step::Failed <==> event == Event::Failed || event
            == Event::Absent && step != Step::LookForIndex && step != Step::LookForScenes,
{
}

/// A chunk goes from one step to the next only when the step succeeded, or when no CRF
/// was found for it; it is encoded with the CRF that was found or has just been
/// recorded.
pub proof fn chunks_go_on_when_a_step_succeeds(step: ChunkStep, event: Event)
    requires
        step != ChunkStep::Done,
        step != ChunkStep::Failed,
    ensures
        chunk_after(step, event) == ChunkStep::Failed <==> event == Event::Failed || event
            == Event::Absent && step != ChunkStep::LookForCrf,
        chunk_after(step, event) == ChunkStep::SolveCrf <==> step == ChunkStep::LookForCrf && event
            == Event::Absent,
        chunk_after(step, event) == ChunkStep::Encode <==> event == Event::Done && (step
            == ChunkStep::LookForCrf || step == ChunkStep::RecordCrf),
        chunk_after(step, event) == ChunkStep::Done <==> event == Event::Done && step
            == ChunkStep::Record,
{
}

/// The steps of a job are those that its profile asks for.
pub proof fn routes_follow_the_profile(config: &Config, r: Route)
    requires
        call_ensures(route_for, (config,), r),
    ensures
        r.copy <==> config.avxs.video != VideoMode::Encode,
        r.hdr == config.avxs.hdr,
        r.crop == config.avxs.crop,
        r.quality <==> config.target_quality is Some,
        r.keep_temp == config.avxs.keep_temp,
{
}

/// A chunk is encoded at once, unless there is a quality to find a CRF for.
pub proof fn crfs_are_looked_for_only_for_a_quality(route: Route, first: ChunkStep)
    requires
        call_ensures(first_chunk_step, (route,), first),
    ensures
        first == ChunkStep::LookForCrf <==> route.quality,
        first == ChunkStep::Encode <==> !route.quality,
{
}

} // verus!
