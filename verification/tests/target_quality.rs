use avxs::config::{ParamValue, TargetQualityConfig};
use avxs::ieee::{quarters_within, Real};
use avxs::target_quality::{
    bracket_pts, chunk_source_bytes, decide, next_crf, round_to_step, seed_crf, Probe, Search,
    SolveOutcome,
};

fn num(v: f64) -> Real {
    Real { bits: v.to_bits() }
}

fn steps(crf: f64) -> u32 {
    (crf * 4.0) as u32
}

fn p(crf: f64, jod: f64, size_pct: f64) -> Probe {
    Probe { crf: steps(crf), jod: num(jod), size_pct: num(size_pct) }
}

/// A size as a percentage of the source's own bytes, 0 where they are not known.
fn size_pct(size: u64, cum: &[u64], start: u64, end: u64) -> f64 {
    match chunk_source_bytes(cum, start, end) {
        Some(bytes) => size as f64 / bytes as f64 * 100.0,
        None => 0.0,
    }
}

#[test]
fn round_to_step_quarters_and_clamps() {
    let round = |v: f64| f64::from(round_to_step(num(v), steps(14.0), steps(45.0))) / 4.0;
    assert_eq!(round(28.1), 28.0);
    assert_eq!(round(28.2), 28.25);
    assert_eq!(round(28.4), 28.5);
    assert_eq!(round(10.0), 14.0);
    assert_eq!(round(99.0), 45.0);
}

#[test]
fn rounding_agrees_with_the_float_unit() {
    let mut v = -3.0f64;
    while v < 80.0 {
        let expected = (v * 4.0).round().clamp(4.0, 280.0) as u32;
        assert_eq!(quarters_within(num(v), 4, 280), expected, "{v}");
        v += 0.031;
    }
    for v in [0.125, 28.125, 28.375, -0.125, 1e300, -1e300, 1e-300, f64::INFINITY] {
        let expected = (v * 4.0).round().clamp(0.0, 280.0) as u32;
        assert_eq!(quarters_within(num(v), 0, 280), expected, "{v}");
    }
    assert_eq!(quarters_within(num(f64::NEG_INFINITY), 4, 280), 4);
}

#[test]
fn comparisons_agree_with_the_float_unit() {
    let values = [
        0.0, -0.0, 1.0, -1.0, 0.5, 9.5, 9.6, -9.5, f64::MIN_POSITIVE, 5e-324, f64::MAX, f64::MIN,
        f64::INFINITY, f64::NEG_INFINITY, f64::NAN,
    ];
    for a in values {
        assert_eq!(num(a).is_nan(), a.is_nan());
        assert_eq!(num(a).is_finite(), a.is_finite());
        assert_eq!(num(a).is_zero(), a == 0.0);
        for b in values {
            assert_eq!(num(a).le(num(b)), a <= b, "{a} {b}");
            assert_eq!(num(a).lt(num(b)), a < b, "{a} {b}");
        }
    }
}

#[test]
fn chunk_size_pct_uses_actual_source_bytes() {
    let cum = [0u64, 100, 300, 600, 1000];
    assert_eq!(size_pct(300, &cum, 0, 2), 50.0);
    assert_eq!(size_pct(200, &cum, 3, 3), 50.0);
    assert_eq!(size_pct(300, &cum, 0, 99), 0.0);
    assert_eq!(size_pct(300, &[], 0, 2), 0.0);
}

#[test]
fn source_bytes_of_a_chunk() {
    let cum = [0u64, 100, 300, 600, 1000];
    assert_eq!(chunk_source_bytes(&cum, 0, 2), Some(600));
    assert_eq!(chunk_source_bytes(&cum, 1, 1), Some(200));
    assert_eq!(chunk_source_bytes(&cum, 0, 4), None);
    assert_eq!(chunk_source_bytes(&cum, 0, u64::MAX), None);
    assert_eq!(chunk_source_bytes(&[5, 5], 0, 0), None);
}

#[test]
fn decide_picks_highest_crf_above_floor() {
    // target 9.5, all under cap: highest CRF with jod >= 9.5 is 36
    let pts = vec![p(30.0, 9.6, 50.0), p(32.0, 9.52, 45.0), p(36.0, 9.5, 40.0), p(40.0, 9.2, 35.0)];
    let r = decide(&pts, num(9.5), num(90.0), steps(14.0));
    assert_eq!(r.crf, steps(36.0));
    assert!(matches!(r.outcome, SolveOutcome::Met));
}

#[test]
fn decide_cap_binds_over_floor() {
    // floor CRF (20) is over the size cap; a higher CRF (25) is under it -> cap wins
    let pts = vec![p(20.0, 9.6, 120.0), p(25.0, 9.3, 80.0)];
    let r = decide(&pts, num(9.5), num(90.0), steps(14.0));
    assert_eq!(r.crf, steps(25.0));
    assert!(matches!(r.outcome, SolveOutcome::CapBinding));
}

#[test]
fn decide_floor_unreachable_uses_best_quality() {
    // all below floor -> highest jod (crf 30)
    let pts = vec![p(30.0, 9.0, 50.0), p(35.0, 8.8, 40.0), p(40.0, 8.5, 30.0)];
    let r = decide(&pts, num(9.5), num(90.0), steps(14.0));
    assert_eq!(r.crf, steps(30.0));
    assert!(matches!(r.outcome, SolveOutcome::FloorUnreachable));
}

#[test]
fn decide_without_a_fitting_probe() {
    let pts = vec![p(30.0, 9.0, 150.0), p(35.0, 9.1, 140.0)];
    let r = decide(&pts, num(9.5), num(90.0), steps(14.0));
    assert_eq!((r.crf, r.outcome), (steps(35.0), SolveOutcome::FloorUnreachable));
    let pts = vec![p(30.0, 9.6, 150.0), p(35.0, 9.1, 140.0)];
    let r = decide(&pts, num(9.5), num(90.0), steps(14.0));
    assert_eq!((r.crf, r.outcome), (steps(30.0), SolveOutcome::Met));
}

#[test]
fn decide_without_probes_takes_the_bound() {
    let r = decide(&[], num(9.5), num(90.0), steps(14.0));
    assert_eq!(r.crf, steps(14.0));
    assert!(r.jod.is_nan() && r.size_pct.is_nan());
    assert_eq!(r.outcome, SolveOutcome::FloorUnreachable);
}

#[test]
fn a_score_that_is_no_number_never_holds() {
    let pts = vec![p(30.0, f64::NAN, 50.0), p(28.0, 9.6, 60.0)];
    let r = decide(&pts, num(9.5), num(90.0), steps(14.0));
    assert_eq!((r.crf, r.outcome), (steps(28.0), SolveOutcome::Met));
}

#[test]
fn seed_uses_encoder_crf_when_present() {
    let seed = |v: Option<i64>, lo: f64, hi: f64| {
        let value = v.map(ParamValue::Int);
        f64::from(seed_crf(value.as_ref(), None, steps(lo), steps(hi))) / 4.0
    };
    assert_eq!(seed(Some(28), 14.0, 45.0), 28.0);
    assert_eq!(seed(Some(60), 14.0, 45.0), 45.0);
    assert_eq!(seed(None, 18.0, 44.0), 31.0);
    assert_eq!(seed(Some(-1), 14.0, 45.0), 14.0);
}

#[test]
fn seed_from_floats_and_text() {
    let value = ParamValue::Float { value: num(28.3), text: "28.3".to_string() };
    assert_eq!(seed_crf(Some(&value), None, 56, 180), 113);
    let value = ParamValue::Str("28.5".to_string());
    assert_eq!(seed_crf(Some(&value), Some(num(28.5)), 56, 180), 114);
    assert_eq!(seed_crf(Some(&value), None, 56, 180), 118);
    assert_eq!(seed_crf(Some(&ParamValue::Bool(true)), None, 4, 7), 6);
}

#[test]
fn next_crf_narrows_the_crossing() {
    let (lo, hi) = (steps(14.0), steps(45.0));
    let pts = [p(30.0, 9.7, 50.0), p(40.0, 9.3, 40.0)];
    let next = |pts: &[Probe], e: f64| next_crf(pts, num(9.5), lo, hi, num(e));
    assert_eq!(next(&pts, 35.0), Some(steps(35.0)));
    assert_eq!(next(&pts, 99.0), Some(steps(35.0)));
    assert_eq!(next(&pts[..1], 20.0), Some(steps(30.25)));
    assert_eq!(next(&pts[1..], 43.0), Some(steps(39.75)));
    let done = [p(30.0, 9.51, 50.0), p(30.25, 9.49, 50.0)];
    assert_eq!(next(&done, 30.1), None);
    assert_eq!(next(&[p(45.0, 9.9, 50.0)], 60.0), None);
    assert_eq!(next(&[p(14.0, 9.1, 50.0)], 2.0), None);
}

#[test]
fn a_score_that_is_no_number_is_on_neither_side() {
    let (lo, hi) = (steps(14.0), steps(45.0));
    let next = |pts: &[Probe], e: f64| next_crf(pts, num(9.5), lo, hi, num(e));
    let odd = |crf: f64| p(crf, f64::NAN, 45.0);
    let both = [p(30.0, 9.7, 50.0), p(40.0, 9.3, 40.0), odd(35.0)];
    assert_eq!(next(&both, 34.0), Some(steps(34.0)));
    assert_eq!(next(&both, 35.0), None);
    assert_eq!(next(&both, 99.0), None);
    let pass = [p(30.0, 9.7, 50.0), odd(33.0)];
    assert_eq!(next(&pass, 40.0), Some(steps(40.0)));
    assert_eq!(next(&pass, 33.0), None);
    assert_eq!(next(&pass, f64::NAN), Some(steps(30.25)));
    let fail = [p(30.0, 9.1, 50.0), odd(33.0)];
    assert_eq!(next(&fail, f64::NAN), Some(steps(29.75)));

    let pts = [p(20.0, 10.0, 0.0), p(25.0, 9.75, 0.0), odd(30.0)];
    let d: Vec<Real> = pts.iter().map(|q| num((f64::from_bits(q.jod.bits) - 9.5).abs())).collect();
    assert_eq!(bracket_pts(&pts, num(9.5), &d), (1, 0));
}

fn profile() -> TargetQualityConfig {
    TargetQualityConfig {
        jod: num(9.5),
        min_crf: 14,
        max_crf: 45,
        max_probes: 12,
        ..Default::default()
    }
}

/// Runs a search on a clip whose score and size fall with the CRF.
fn run(tq: &TargetQualityConfig, jod: &dyn Fn(f64) -> f64, size: &dyn Fn(f64) -> f64) -> Search {
    let mut s = Search::new(tq, num(10.0 + 1.0));
    let mut crf = Some(seed_crf(None, None, s.lo, s.hi));
    while let Some(c) = crf {
        let v = f64::from(c) / 4.0;
        s.record(p(v, jod(v), size(v)));
        crf = s.next(num(v + (jod(v) - 9.5) / 0.025));
    }
    s
}

#[test]
fn a_search_finds_the_highest_crf_that_holds() {
    let mut tq = profile();
    tq.min_probes = 12;
    let s = run(&tq, &|c| 10.2 - c * 0.021, &|_| 50.0);
    let r = s.result();
    // 10.2 - 33.25 * 0.021 = 9.50175 holds, 33.5 gives 9.4965
    assert_eq!((r.crf, r.outcome), (steps(33.25), SolveOutcome::Met));
    assert!(s.probes.len() <= 12);
}

#[test]
fn a_search_goes_on_until_the_size_fits() {
    let mut tq = profile();
    tq.min_probes = 12;
    let s = run(&tq, &|c| 10.2 - c * 0.021, &|c| 200.0 - c * 2.8);
    let r = s.result();
    // 200 - 39.25 * 2.8 = 90.1 is over the cap, 39.5 gives 89.4
    assert_eq!((r.crf, r.outcome), (steps(39.5), SolveOutcome::CapBinding));
    assert!(s.cap_phase);
}

#[test]
fn a_search_stops_early_close_to_the_target() {
    let mut s = Search::new(&profile(), num(10.0));
    s.record(p(30.0, 9.9, 50.0));
    assert!(s.next(num(35.0)).is_some());
    s.record(p(35.0, 9.6, 50.0));
    assert_eq!(s.next(num(36.0)), None);
    assert_eq!(s.result().crf, steps(35.0));
}

#[test]
fn a_search_keeps_its_budget() {
    let mut tq = profile();
    tq.min_probes = 3;
    tq.max_probes = 3;
    let s = run(&tq, &|c| 9.9 - c * 0.001, &|_| 150.0);
    assert_eq!(s.probes.len(), 3);
}

#[test]
fn brackets_around_the_target() {
    let pts = [p(20.0, 9.9, 0.0), p(30.0, 9.7, 0.0), p(40.0, 9.3, 0.0), p(44.0, 9.1, 0.0)];
    let d: Vec<Real> = [9.9, 9.7, 9.3, 9.1].iter().map(|j: &f64| num((j - 9.5).abs())).collect();
    assert_eq!(bracket_pts(&pts, num(9.5), &d), (1, 2));
    let above = &pts[..2];
    assert_eq!(bracket_pts(above, num(9.5), &d[..2]), (1, 0));
    let below = &pts[2..];
    assert_eq!(bracket_pts(below, num(9.5), &d[2..]), (0, 1));
}
