use avxs::config::{AvxsConfig, Config, Encoder, TargetQualityConfig, VideoMode};
use avxs::pipeline::{
    first_chunk_step, next_chunk_step, next_step, route_for, ChunkStep, Event, Route, Step,
};

fn plain() -> Route {
    Route { copy: false, hdr: false, crop: false, quality: false, keep_temp: false }
}

/// The steps of a job in which everything succeeds, with or without work of an earlier run.
fn steps(route: Route, resumed: bool) -> Vec<Step> {
    let mut all = vec![Step::WaitForSource];
    loop {
        let step = all[all.len() - 1];
        if step == Step::Done {
            return all;
        }
        let looks = matches!(step, Step::LookForIndex | Step::LookForScenes);
        let event = if looks && !resumed { Event::Absent } else { Event::Done };
        all.push(next_step(route, step, event));
    }
}

#[test]
fn route_of_a_profile() {
    let config = Config {
        encoder: Some(Encoder::SvtAv1),
        avxs: AvxsConfig { hdr: true, keep_temp: true, ..Default::default() },
        target_quality: Some(TargetQualityConfig::default()),
        ..Default::default()
    };
    let expected = Route { hdr: true, quality: true, keep_temp: true, ..plain() };
    assert_eq!(route_for(&config), expected);
    let config = Config {
        avxs: AvxsConfig { video: VideoMode::Copy, crop: true, ..Default::default() },
        ..Default::default()
    };
    assert_eq!(route_for(&config), Route { copy: true, crop: true, ..plain() });
}

#[test]
fn steps_of_a_new_encode() {
    assert_eq!(
        steps(plain(), false),
        vec![
            Step::WaitForSource,
            Step::CreateDirs,
            Step::LookForIndex,
            Step::BuildIndex,
            Step::OpenSource,
            Step::ProbeRate,
            Step::PlanEncode,
            Step::DropStaleWork,
            Step::LookForScenes,
            Step::DetectScenes,
            Step::PlanAudio,
            Step::EncodeChunks,
            Step::JoinChunks,
            Step::ProcessAudio,
            Step::SelectSubtitles,
            Step::Mux,
            Step::Validate,
            Step::Publish,
            Step::Archive,
            Step::Clean,
            Step::Done,
        ]
    );
}

#[test]
fn resumed_jobs_use_what_is_there() {
    let all = steps(plain(), true);
    assert!(!all.contains(&Step::BuildIndex));
    assert!(!all.contains(&Step::DetectScenes));
    assert!(all.contains(&Step::EncodeChunks));
}

#[test]
fn every_feature_has_its_step() {
    let route = Route { hdr: true, crop: true, quality: true, keep_temp: true, ..plain() };
    let all = steps(route, false);
    for step in [Step::ProbeColours, Step::DetectCrop, Step::FindGpu] {
        assert!(all.contains(&step));
        assert!(!steps(plain(), false).contains(&step));
    }
    assert!(!all.contains(&Step::Clean));
    assert_eq!(all.len(), 24 - 1);
}

#[test]
fn copied_videos_are_not_encoded() {
    let route = Route { copy: true, hdr: true, crop: true, quality: true, ..plain() };
    assert_eq!(
        steps(route, false),
        vec![
            Step::WaitForSource,
            Step::CreateDirs,
            Step::PlanAudio,
            Step::ProcessAudio,
            Step::SelectSubtitles,
            Step::Mux,
            Step::Validate,
            Step::Publish,
            Step::Archive,
            Step::Clean,
            Step::Done,
        ]
    );
}

#[test]
fn failures_end_a_job() {
    let mut step = Step::WaitForSource;
    while step != Step::Done {
        assert_eq!(next_step(plain(), step, Event::Failed), Step::Failed);
        step = next_step(plain(), step, Event::Done);
    }
    assert_eq!(next_step(plain(), Step::Failed, Event::Done), Step::Failed);
    assert_eq!(next_step(plain(), Step::Done, Event::Failed), Step::Done);
    assert_eq!(next_step(plain(), Step::Validate, Event::Absent), Step::Failed);
}

#[test]
fn steps_of_a_chunk() {
    assert_eq!(first_chunk_step(plain()), ChunkStep::Encode);
    let quality = Route { quality: true, ..plain() };
    let mut step = first_chunk_step(quality);
    let mut all = vec![step];
    for event in [Event::Absent, Event::Done, Event::Done, Event::Done, Event::Done] {
        step = next_chunk_step(step, event);
        all.push(step);
    }
    assert_eq!(
        all,
        vec![
            ChunkStep::LookForCrf,
            ChunkStep::SolveCrf,
            ChunkStep::RecordCrf,
            ChunkStep::Encode,
            ChunkStep::Record,
            ChunkStep::Done,
        ]
    );
    assert_eq!(next_chunk_step(ChunkStep::LookForCrf, Event::Done), ChunkStep::Encode);
    assert_eq!(next_chunk_step(ChunkStep::Encode, Event::Failed), ChunkStep::Failed);
    assert_eq!(next_chunk_step(ChunkStep::Encode, Event::Absent), ChunkStep::Failed);
}
