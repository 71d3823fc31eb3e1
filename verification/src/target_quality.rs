//! The search for the CRF with which a chunk holds a target quality.
//!
//! CRFs are counted in steps of a quarter, the grid of the encoder. The scores
//! and sizes of the probes are floating-point numbers, held by their patterns.
use vstd::prelude::*;

use crate::config::{ParamValue, TargetQualityConfig};
use crate::ieee::{clamp_int, nearest_quarters, quarters_within, Real};

verus! {

/// The pattern of a number that is not a number.
pub const NAN_BITS: u64 = 0x7ff8_0000_0000_0000;

/// The greatest CRF of the encoder, in quarter steps.
pub const CRF_LIMIT: u32 = 280;

/// An encode of a chunk that was measured: its CRF, its score, and its size as
/// a percentage of the source.
#[derive(Debug, Clone, Copy, PartialEq, Eq, Structural)]
pub struct Probe {
    pub crf: u32,
    pub jod: Real,
    pub size_pct: Real,
}

/// Why the search settled on its CRF.
#[derive(Debug, Clone, Copy, PartialEq, Eq, Structural)]
pub enum SolveOutcome {
    /// It is the highest that holds the score, and the size is within the cap.
    Met,
    /// The cap asked for a higher one than the score allows.
    CapBinding,
    /// No probe holds the score.
    FloorUnreachable,
}

#[derive(Debug, Clone, Copy, PartialEq, Eq, Structural)]
pub struct SolveResult {
    pub crf: u32,
    pub jod: Real,
    pub size_pct: Real,
    pub outcome: SolveOutcome,
}

impl Probe {
    /// The score is at least the target. One that is not a number never is.
    pub open spec fn holds(self, target: Real) -> bool {
        target.at_most(self.jod)
    }

    /// The score is less than the target. One that is not a number never is.
    pub open spec fn fails(self, target: Real) -> bool {
        self.jod.less(target)
    }

    /// The size is within the cap.
    pub open spec fn fits(self, cap: Real) -> bool {
        self.size_pct.at_most(cap)
    }
}

/// The probe with the highest CRF of those that hold the target.
pub open spec fn highest_holding(pts: Seq<Probe>, target: Real) -> Option<Probe>
    decreases pts.len(),
{
    if pts.len() == 0 {
        None
    } else {
        let p = pts.last();
        match highest_holding(pts.drop_last(), target) {
            Some(q) => if p.holds(target) && p.crf >= q.crf {
                Some(p)
            } else {
                Some(q)
            },
            None => if p.holds(target) {
                Some(p)
            } else {
                None
            },
        }
    }
}

/// The lowest CRF of the probes whose scores are below the target.
pub open spec fn lowest_failing(pts: Seq<Probe>, target: Real) -> Option<u32>
    decreases pts.len(),
{
    if pts.len() == 0 {
        None
    } else {
        let p = pts.last();
        match lowest_failing(pts.drop_last(), target) {
            Some(q) => if p.fails(target) && p.crf < q {
                Some(p.crf)
            } else {
                Some(q)
            },
            None => if p.fails(target) {
                Some(p.crf)
            } else {
                None
            },
        }
    }
}

/// The probe with the lowest CRF of those that fit the cap.
pub open spec fn lowest_fitting(pts: Seq<Probe>, cap: Real) -> Option<Probe>
    decreases pts.len(),
{
    if pts.len() == 0 {
        None
    } else {
        let p = pts.last();
        match lowest_fitting(pts.drop_last(), cap) {
            Some(q) => if p.fits(cap) && p.crf < q.crf {
                Some(p)
            } else {
                Some(q)
            },
            None => if p.fits(cap) {
                Some(p)
            } else {
                None
            },
        }
    }
}

/// The highest CRF below `below` of the probes that do not fit the cap.
pub open spec fn highest_over(pts: Seq<Probe>, cap: Real, below: u32) -> Option<u32>
    decreases pts.len(),
{
    if pts.len() == 0 {
        None
    } else {
        let p = pts.last();
        let over = !p.fits(cap) && p.crf < below;
        match highest_over(pts.drop_last(), cap, below) {
            Some(q) => if over && p.crf > q {
                Some(p.crf)
            } else {
                Some(q)
            },
            None => if over {
                Some(p.crf)
            } else {
                None
            },
        }
    }
}

/// The highest CRF of all probes.
pub open spec fn highest_probed(pts: Seq<Probe>) -> Option<u32>
    decreases pts.len(),
{
    if pts.len() == 0 {
        None
    } else {
        let p = pts.last();
        match highest_probed(pts.drop_last()) {
            Some(q) => if p.crf > q {
                Some(p.crf)
            } else {
                Some(q)
            },
            None => Some(p.crf),
        }
    }
}

/// The probe with the best score.
pub open spec fn best_quality(pts: Seq<Probe>) -> Option<Probe>
    decreases pts.len(),
{
    if pts.len() == 0 {
        None
    } else {
        let p = pts.last();
        match best_quality(pts.drop_last()) {
            Some(q) => if p.jod.rank() >= q.jod.rank() {
                Some(p)
            } else {
                Some(q)
            },
            None => Some(p),
        }
    }
}

/// The result that a probe stands for.
pub open spec fn settled(p: Probe, outcome: SolveOutcome) -> SolveResult {
    SolveResult { crf: p.crf, jod: p.jod, size_pct: p.size_pct, outcome }
}

/// The CRF that the probes call for. The score is a floor and so bounds the
/// CRF from above, the cap on the size bounds it from below, and the cap is the
/// harder of the two. Where no probe holds the score, the best one that fits
/// the cap is taken.
pub open spec fn decided(pts: Seq<Probe>, target: Real, cap: Real, lo: u32) -> SolveResult {
    match (highest_holding(pts, target), lowest_fitting(pts, cap)) {
        (Some(fl), Some(sz)) => if sz.crf > fl.crf {
            settled(sz, SolveOutcome::CapBinding)
        } else {
            settled(fl, SolveOutcome::Met)
        },
        (Some(fl), None) => settled(fl, SolveOutcome::Met),
        (None, Some(sz)) => settled(sz, SolveOutcome::FloorUnreachable),
        (None, None) => match best_quality(pts) {
            Some(p) => settled(p, SolveOutcome::FloorUnreachable),
            None => SolveResult {
                crf: lo,
                jod: Real { bits: NAN_BITS },
                size_pct: Real { bits: NAN_BITS },
                outcome: SolveOutcome::FloorUnreachable,
            },
        },
    }
}

fn find_highest_holding(pts: &[Probe], target: Real) -> (r: Option<Probe>)
    ensures
        r == highest_holding(pts@, target),
{
    let mut best: Option<Probe> = None;
    let mut i: usize = 0;
    while i < pts.len()
        invariant
            i <= pts@.len(),
            best == highest_holding(pts@.take(i as int), target),
        decreases pts@.len() - i,
    {
        let p = pts[i];
        assert(pts@.take(i + 1).drop_last() =~= pts@.take(i as int));
        if target.le(p.jod) {
            best = match best {
                Some(q) => if p.crf >= q.crf {
                    Some(p)
                } else {
                    Some(q)
                },
                None => Some(p),
            };
        }
        i += 1;
    }
    assert(pts@.take(i as int) =~= pts@);
    best
}

fn find_lowest_failing(pts: &[Probe], target: Real) -> (r: Option<u32>)
    ensures
        r == lowest_failing(pts@, target),
{
    let mut best: Option<u32> = None;
    let mut i: usize = 0;
    while i < pts.len()
        invariant
            i <= pts@.len(),
            best == lowest_failing(pts@.take(i as int), target),
        decreases pts@.len() - i,
    {
        let p = pts[i];
        assert(pts@.take(i + 1).drop_last() =~= pts@.take(i as int));
        if p.jod.lt(target) {
            best = match best {
                Some(q) => if p.crf < q {
                    Some(p.crf)
                } else {
                    Some(q)
                },
                None => Some(p.crf),
            };
        }
        i += 1;
    }
    assert(pts@.take(i as int) =~= pts@);
    best
}

fn find_lowest_fitting(pts: &[Probe], cap: Real) -> (r: Option<Probe>)
    ensures
        r == lowest_fitting(pts@, cap),
{
    let mut best: Option<Probe> = None;
    let mut i: usize = 0;
    while i < pts.len()
        invariant
            i <= pts@.len(),
            best == lowest_fitting(pts@.take(i as int), cap),
        decreases pts@.len() - i,
    {
        let p = pts[i];
        assert(pts@.take(i + 1).drop_last() =~= pts@.take(i as int));
        if p.size_pct.le(cap) {
            best = match best {
                Some(q) => if p.crf < q.crf {
                    Some(p)
                } else {
                    Some(q)
                },
                None => Some(p),
            };
        }
        i += 1;
    }
    assert(pts@.take(i as int) =~= pts@);
    best
}

fn find_highest_over(pts: &[Probe], cap: Real, below: u32) -> (r: Option<u32>)
    ensures
        r == highest_over(pts@, cap, below),
{
    let mut best: Option<u32> = None;
    let mut i: usize = 0;
    while i < pts.len()
        invariant
            i <= pts@.len(),
            best == highest_over(pts@.take(i as int), cap, below),
        decreases pts@.len() - i,
    {
        let p = pts[i];
        assert(pts@.take(i + 1).drop_last() =~= pts@.take(i as int));
        if !p.size_pct.le(cap) && p.crf < below {
            best = match best {
                Some(q) => if p.crf > q {
                    Some(p.crf)
                } else {
                    Some(q)
                },
                None => Some(p.crf),
            };
        }
        i += 1;
    }
    assert(pts@.take(i as int) =~= pts@);
    best
}

fn find_highest_probed(pts: &[Probe]) -> (r: Option<u32>)
    ensures
        r == highest_probed(pts@),
{
    let mut best: Option<u32> = None;
    let mut i: usize = 0;
    while i < pts.len()
        invariant
            i <= pts@.len(),
            best == highest_probed(pts@.take(i as int)),
        decreases pts@.len() - i,
    {
        let p = pts[i];
        assert(pts@.take(i + 1).drop_last() =~= pts@.take(i as int));
        best = match best {
            Some(q) => if p.crf > q {
                Some(p.crf)
            } else {
                Some(q)
            },
            None => Some(p.crf),
        };
        i += 1;
    }
    assert(pts@.take(i as int) =~= pts@);
    best
}

fn find_best_quality(pts: &[Probe]) -> (r: Option<Probe>)
    ensures
        r == best_quality(pts@),
{
    let mut best: Option<Probe> = None;
    let mut i: usize = 0;
    while i < pts.len()
        invariant
            i <= pts@.len(),
            best == best_quality(pts@.take(i as int)),
        decreases pts@.len() - i,
    {
        let p = pts[i];
        assert(pts@.take(i + 1).drop_last() =~= pts@.take(i as int));
        best = match best {
            Some(q) => if p.jod.ranks_below(q.jod) {
                Some(q)
            } else {
                Some(p)
            },
            None => Some(p),
        };
        i += 1;
    }
    assert(pts@.take(i as int) =~= pts@);
    best
}

/// The CRF that the probes call for; `lo` is the one without any probe.
pub fn decide(pts: &[Probe], target: Real, cap: Real, lo: u32) -> (r: SolveResult)
    ensures
        r == decided(pts@, target, cap, lo),
{
    let floor = find_highest_holding(pts, target);
    let under_cap = find_lowest_fitting(pts, cap);
    let (p, outcome) = match (floor, under_cap) {
        (Some(fl), Some(sz)) => if sz.crf > fl.crf {
            (Some(sz), SolveOutcome::CapBinding)
        } else {
            (Some(fl), SolveOutcome::Met)
        },
        (Some(fl), None) => (Some(fl), SolveOutcome::Met),
        (None, Some(sz)) => (Some(sz), SolveOutcome::FloorUnreachable),
        (None, None) => (find_best_quality(pts), SolveOutcome::FloorUnreachable),
    };
    match p {
        Some(p) => SolveResult { crf: p.crf, jod: p.jod, size_pct: p.size_pct, outcome },
        None => SolveResult {
            crf: lo,
            jod: Real { bits: NAN_BITS },
            size_pct: Real { bits: NAN_BITS },
            outcome,
        },
    }
}

/// The middle of two CRFs, halves rounded up.
pub open spec fn middle(a: int, b: int) -> int {
    (a + b + 1) / 2
}

/// The grid step nearest to an estimate; none where it is not a number.
pub open spec fn estimated(estimate: Real) -> Option<int> {
    if estimate.nan() {
        None
    } else {
        Some(nearest_quarters(estimate))
    }
}

/// The CRF, unless it has been probed.
pub open spec fn unless_probed(pts: Seq<Probe>, crf: int) -> Option<int> {
    if probed(pts, crf) {
        None
    } else {
        Some(crf)
    }
}

/// The CRF to probe next in search of the highest one that holds the target,
/// between `lo` and `hi`; `estimate` is where the score is expected to cross
/// the target. There is none once the crossing is narrowed to one step, a bound
/// is reached, or no new step remains.
pub open spec fn floor_step(
    pts: Seq<Probe>,
    target: Real,
    lo: int,
    hi: int,
    estimate: Option<int>,
) -> Option<int> {
    match (highest_holding(pts, target), lowest_failing(pts, target)) {
        (Some(p), Some(f)) => if f <= p.crf + 1 {
            None
        } else {
            match estimate {
                Some(e) if p.crf < e < f && !probed(pts, e) => Some(e),
                _ => unless_probed(pts, middle(p.crf as int, f as int)),
            }
        },
        (Some(p), None) => if p.crf >= hi {
            None
        } else {
            match estimate {
                Some(e) => unless_probed(pts, clamp_int(e, p.crf + 1, hi)),
                None => unless_probed(pts, p.crf + 1),
            }
        },
        (None, Some(f)) => if f <= lo {
            None
        } else {
            match estimate {
                Some(e) => unless_probed(pts, clamp_int(e, lo, f - 1)),
                None => unless_probed(pts, f - 1),
            }
        },
        (None, None) => None,
    }
}

/// Some probe is on a side of the target, and where there are some on both, the
/// estimate is a number.
pub open spec fn can_step(pts: Seq<Probe>, target: Real, estimate: Real) -> bool {
    &&& highest_holding(pts, target) is Some || lowest_failing(pts, target) is Some
    &&& highest_holding(pts, target) is Some && lowest_failing(pts, target) is Some
        ==> !estimate.nan()
}

/// The CRF to probe next in search of the lowest one that fits the cap: toward
/// `hi` until one does, then back down between that one and the highest below
/// it that did not.
pub open spec fn cap_step(pts: Seq<Probe>, cap: Real, hi: int) -> Option<int> {
    match lowest_fitting(pts, cap) {
        None => match highest_probed(pts) {
            Some(h) if h < hi => Some(middle(h as int, hi)),
            _ => None,
        },
        Some(f) => match highest_over(pts, cap, f.crf) {
            Some(o) if o + 1 < f.crf => Some(middle(o as int, f.crf as int)),
            _ => None,
        },
    }
}

/// The step of the grid nearest to a CRF, brought into the given bounds.
pub fn round_to_step(v: Real, lo: u32, hi: u32) -> (r: u32)
    requires
        !v.nan(),
        lo <= hi,
    ensures
        r == clamp_int(nearest_quarters(v), lo as int, hi as int),
{
    quarters_within(v, lo, hi)
}

fn was_probed(pts: &[Probe], crf: u32) -> (r: bool)
    ensures
        r == probed(pts@, crf as int),
{
    let mut i: usize = 0;
    while i < pts.len()
        invariant
            i <= pts@.len(),
            forall|k: int| 0 <= k < i ==> (#[trigger] pts@[k]).crf != crf,
        decreases pts@.len() - i,
    {
        if pts[i].crf == crf {
            return true;
        }
        i += 1;
    }
    false
}

/// Picks the next CRF in search of the crossing.
pub fn next_crf(pts: &[Probe], target: Real, lo: u32, hi: u32, estimate: Real) -> (r: Option<u32>)
    requires
        lo <= hi <= CRF_LIMIT,
        can_step(pts@, target, estimate),
        forall|i: int| 0 <= i < pts@.len() ==> lo <= (#[trigger] pts@[i]).crf <= hi,
    ensures
        match floor_step(pts@, target, lo as int, hi as int, estimated(estimate)) {
            Some(c) => r == Some(c as u32) && 0 <= c <= CRF_LIMIT,
            None => r is None,
        },
{
    let holding = find_highest_holding(pts, target);
    let failing = find_lowest_failing(pts, target);
    proof {
        lemma_extremes(pts@, target);
    }
    let cand: u32 = match (holding, failing) {
        (Some(p), Some(f)) => {
            if f <= p.crf + 1 {
                return None;
            }
            let c: u32 = round_to_step(estimate, p.crf, f);
            if p.crf < c && c < f && !was_probed(pts, c) {
                c
            } else {
                (p.crf + f + 1) / 2
            }
        },
        (Some(p), None) => {
            if p.crf >= hi {
                return None;
            }
            if estimate.is_nan() {
                p.crf + 1
            } else {
                round_to_step(estimate, p.crf + 1, hi)
            }
        },
        (None, Some(f)) => {
            if f <= lo {
                return None;
            }
            if estimate.is_nan() {
                f - 1
            } else {
                round_to_step(estimate, lo, f - 1)
            }
        },
        (None, None) => {
            return None;
        },
    };
    if was_probed(pts, cand) {
        None
    } else {
        Some(cand)
    }
}

/// Picks the next CRF in search of one that fits the cap.
fn next_under_cap(pts: &[Probe], cap: Real, hi: u32) -> (r: Option<u32>)
    requires
        hi <= CRF_LIMIT,
        forall|i: int| 0 <= i < pts@.len() ==> (#[trigger] pts@[i]).crf <= hi,
    ensures
        match cap_step(pts@, cap, hi as int) {
            Some(c) => r == Some(c as u32) && 0 <= c <= CRF_LIMIT,
            None => r is None,
        },
{
    match find_lowest_fitting(pts, cap) {
        None => match find_highest_probed(pts) {
            Some(h) => if h < hi {
                Some((h + hi + 1) / 2)
            } else {
                None
            },
            None => None,
        },
        Some(f) => {
            proof {
                lemma_lowest_fitting(pts@, cap);
                lemma_highest_over(pts@, cap, f.crf);
            }
            match find_highest_over(pts, cap, f.crf) {
                Some(o) => if o + 1 < f.crf {
                    Some((o + f.crf + 1) / 2)
                } else {
                    None
                },
                None => None,
            }
        },
    }
}

/// A probe at the given CRF has been made.
pub open spec fn probed(pts: Seq<Probe>, crf: int) -> bool {
    exists|i: int| 0 <= i < pts.len() && (#[trigger] pts[i]).crf == crf
}

/// The probe with the highest CRF of those that hold the target is one of the
/// probes, and no probe that holds it has a higher CRF; the lowest CRF of those
/// below it is that of one of them, and no other is lower.
proof fn lemma_extremes(pts: Seq<Probe>, target: Real)
    ensures
        match highest_holding(pts, target) {
            Some(p) => p.holds(target) && pts.contains(p) && forall|i: int|
                0 <= i < pts.len() && (#[trigger] pts[i]).holds(target) ==> pts[i].crf <= p.crf,
            None => forall|i: int| 0 <= i < pts.len() ==> !(#[trigger] pts[i]).holds(target),
        },
        match lowest_failing(pts, target) {
            Some(f) => probed(pts, f as int) && forall|i: int|
                0 <= i < pts.len() && (#[trigger] pts[i]).fails(target) ==> f <= pts[i].crf,
            None => forall|i: int| 0 <= i < pts.len() ==> !(#[trigger] pts[i]).fails(target),
        },
    decreases pts.len(),
{
    if pts.len() > 0 {
        let init = pts.drop_last();
        lemma_extremes(init, target);
        assert(pts[pts.len() - 1] == pts.last());
        assert(forall|i: int| 0 <= i < init.len() ==> init[i] == pts[i]);
        if let Some(q) = highest_holding(init, target) {
            let k = choose|k: int| 0 <= k < init.len() && init[k] == q;
            assert(pts[k] == q);
        }
        if let Some(q) = lowest_failing(init, target) {
            let k = choose|k: int| 0 <= k < init.len() && (#[trigger] init[k]).crf == q;
            assert(pts[k].crf == q);
        }
    }
}

proof fn lemma_lowest_fitting(pts: Seq<Probe>, cap: Real)
    ensures
        match lowest_fitting(pts, cap) {
            Some(p) => p.fits(cap) && pts.contains(p) && forall|i: int|
                0 <= i < pts.len() && (#[trigger] pts[i]).fits(cap) ==> p.crf <= pts[i].crf,
            None => forall|i: int| 0 <= i < pts.len() ==> !(#[trigger] pts[i]).fits(cap),
        },
    decreases pts.len(),
{
    if pts.len() > 0 {
        let init = pts.drop_last();
        lemma_lowest_fitting(init, cap);
        assert(pts[pts.len() - 1] == pts.last());
        assert(forall|i: int| 0 <= i < init.len() ==> init[i] == pts[i]);
        if let Some(q) = lowest_fitting(init, cap) {
            let k = choose|k: int| 0 <= k < init.len() && init[k] == q;
            assert(pts[k] == q);
        }
    }
}

proof fn lemma_highest_over(pts: Seq<Probe>, cap: Real, below: u32)
    ensures
        match highest_over(pts, cap, below) {
            Some(o) => o < below && probed(pts, o as int) && forall|i: int|
                0 <= i < pts.len() && !(#[trigger] pts[i]).fits(cap) && pts[i].crf < below
                    ==> pts[i].crf <= o,
            None => forall|i: int|
                0 <= i < pts.len() && !(#[trigger] pts[i]).fits(cap) ==> below <= pts[i].crf,
        },
    decreases pts.len(),
{
    if pts.len() > 0 {
        let init = pts.drop_last();
        lemma_highest_over(init, cap, below);
        assert(pts[pts.len() - 1] == pts.last());
        assert(forall|i: int| 0 <= i < init.len() ==> init[i] == pts[i]);
        if let Some(q) = highest_over(init, cap, below) {
            let k = choose|k: int| 0 <= k < init.len() && (#[trigger] init[k]).crf == q;
            assert(pts[k].crf == q);
        }
    }
}

proof fn lemma_highest_probed(pts: Seq<Probe>)
    ensures
        match highest_probed(pts) {
            Some(h) => probed(pts, h as int) && forall|i: int|
                0 <= i < pts.len() ==> (#[trigger] pts[i]).crf <= h,
            None => pts.len() == 0,
        },
    decreases pts.len(),
{
    if pts.len() > 0 {
        let init = pts.drop_last();
        lemma_highest_probed(init);
        assert(pts[pts.len() - 1] == pts.last());
        assert(forall|i: int| 0 <= i < init.len() ==> init[i] == pts[i]);
        if let Some(q) = highest_probed(init) {
            let k = choose|k: int| 0 <= k < init.len() && (#[trigger] init[k]).crf == q;
            assert(pts[k].crf == q);
        }
    }
}

/// A CRF that the search for the crossing asks for lies within the bounds, has
/// not been probed, and lies above the probes that hold the target and below those
/// that fall short of it.
pub proof fn floor_steps_narrow_the_crossing(
    pts: Seq<Probe>,
    target: Real,
    lo: int,
    hi: int,
    estimate: Option<int>,
)
    requires
        lo <= hi,
        forall|i: int| 0 <= i < pts.len() ==> lo <= (#[trigger] pts[i]).crf <= hi,
        floor_step(pts, target, lo, hi, estimate) is Some,
    ensures
        ({
            let c = floor_step(pts, target, lo, hi, estimate).unwrap();
            &&& lo <= c <= hi
            &&& !probed(pts, c)
            &&& forall|i: int|
                0 <= i < pts.len() ==> ((#[trigger] pts[i]).holds(target) ==> pts[i].crf < c) && (
                pts[i].fails(target) ==> c < pts[i].crf)
        }),
{
    lemma_extremes(pts, target);
}

/// A CRF that the search for a size within the cap asks for lies above the
/// probes, or between the lowest that fits and the highest below it that does
/// not; it lies within the bounds and has not been probed.
pub proof fn cap_steps_narrow_the_size(pts: Seq<Probe>, cap: Real, lo: int, hi: int)
    requires
        lo <= hi,
        forall|i: int| 0 <= i < pts.len() ==> lo <= (#[trigger] pts[i]).crf <= hi,
        cap_step(pts, cap, hi) is Some,
    ensures
        ({
            let c = cap_step(pts, cap, hi).unwrap();
            &&& lo <= c <= hi
            &&& !probed(pts, c)
            &&& match lowest_fitting(pts, cap) {
                Some(f) => c < f.crf && forall|i: int|
                    0 <= i < pts.len() && (#[trigger] pts[i]).crf < f.crf ==> pts[i].crf < c,
                None => forall|i: int| 0 <= i < pts.len() ==> (#[trigger] pts[i]).crf < c,
            }
        }),
{
    lemma_lowest_fitting(pts, cap);
    lemma_highest_probed(pts);
    if let Some(f) = lowest_fitting(pts, cap) {
        lemma_highest_over(pts, cap, f.crf);
    }
}

/// What the search settles on: a CRF that was probed. When the target is met it
/// is the highest that held the score; when the cap binds it is the lowest that
/// fit the cap, and does not hold the score; when the score is out of reach no
/// probe held it, and the lowest CRF that fit the cap is taken, if any did.
pub proof fn decisions_are_sound(pts: Seq<Probe>, target: Real, cap: Real, lo: u32)
    requires
        pts.len() > 0,
    ensures
        ({
            let r = decided(pts, target, cap, lo);
            let p = Probe { crf: r.crf, jod: r.jod, size_pct: r.size_pct };
            &&& pts.contains(p)
            &&& r.outcome == SolveOutcome::Met ==> p.holds(target) && forall|i: int|
                0 <= i < pts.len() && (#[trigger] pts[i]).holds(target) ==> pts[i].crf <= r.crf
            &&& r.outcome == SolveOutcome::CapBinding ==> p.fits(cap) && !p.holds(target)
                && forall|i: int|
                0 <= i < pts.len() && (#[trigger] pts[i]).fits(cap) ==> r.crf <= pts[i].crf
            &&& r.outcome == SolveOutcome::FloorUnreachable ==> forall|i: int|
                0 <= i < pts.len() ==> !(#[trigger] pts[i]).holds(target)
            &&& r.outcome == SolveOutcome::FloorUnreachable && (exists|i: int|
                0 <= i < pts.len() && (#[trigger] pts[i]).fits(cap)) ==> p.fits(cap)
                && forall|i: int|
                0 <= i < pts.len() && (#[trigger] pts[i]).fits(cap) ==> r.crf <= pts[i].crf
        }),
{
    lemma_extremes(pts, target);
    lemma_lowest_fitting(pts, cap);
    lemma_best_quality(pts);
    let r = decided(pts, target, cap, lo);
    let p = Probe { crf: r.crf, jod: r.jod, size_pct: r.size_pct };
    if let Some(fl) = highest_holding(pts, target) {
        assert(r.outcome == SolveOutcome::Met ==> p == fl);
    }
    if let Some(sz) = lowest_fitting(pts, cap) {
        assert(r.outcome == SolveOutcome::CapBinding ==> p == sz);
        if r.outcome == SolveOutcome::CapBinding && sz.holds(target) {
            let k = choose|k: int| 0 <= k < pts.len() && pts[k] == sz;
            assert(pts[k].holds(target));
        }
    }
    if let Some(b) = best_quality(pts) {
        assert(highest_holding(pts, target) is None && lowest_fitting(pts, cap) is None ==> p == b);
    }
}

/// If some probe holds the score within the cap, the result holds the score, and
/// its size is within the cap as long as sizes do not grow with the CRF.
pub proof fn both_constraints_are_met_where_a_probe_meets_them(
    pts: Seq<Probe>,
    target: Real,
    cap: Real,
    lo: u32,
    k: int,
)
    requires
        0 <= k < pts.len(),
        pts[k].holds(target),
        pts[k].fits(cap),
        !cap.nan(),
        forall|i: int, j: int|
            0 <= i < pts.len() && 0 <= j < pts.len() && (#[trigger] pts[i]).crf <= (
            #[trigger] pts[j]).crf ==> pts[j].size_pct.at_most(pts[i].size_pct),
    ensures
        decided(pts, target, cap, lo).outcome == SolveOutcome::Met,
        target.at_most(decided(pts, target, cap, lo).jod),
        decided(pts, target, cap, lo).size_pct.at_most(cap),
        pts[k].crf <= decided(pts, target, cap, lo).crf,
{
    lemma_extremes(pts, target);
    lemma_lowest_fitting(pts, cap);
    let fl = highest_holding(pts, target).unwrap();
    let n = choose|n: int| 0 <= n < pts.len() && pts[n] == fl;
    assert(pts[k].crf <= pts[n].crf);
}

proof fn lemma_best_quality(pts: Seq<Probe>)
    ensures
        match best_quality(pts) {
            Some(p) => pts.contains(p) && forall|i: int|
                0 <= i < pts.len() ==> (#[trigger] pts[i]).jod.rank() <= p.jod.rank(),
            None => pts.len() == 0,
        },
    decreases pts.len(),
{
    if pts.len() > 0 {
        let init = pts.drop_last();
        lemma_best_quality(init);
        assert(pts[pts.len() - 1] == pts.last());
        assert(forall|i: int| 0 <= i < init.len() ==> init[i] == pts[i]);
        if let Some(q) = best_quality(init) {
            let k = choose|k: int| 0 <= k < init.len() && init[k] == q;
            assert(pts[k] == q);
        }
    }
}

/// A search in progress.
#[derive(Debug)]
pub struct Search {
    pub lo: u32,
    pub hi: u32,
    /// The score to hold.
    pub target: Real,
    /// The score up to which a probe is close enough to the target.
    pub ceiling: Real,
    /// The greatest size.
    pub cap: Real,
    pub min_probes: u32,
    pub max_probes: u32,
    pub probes: Vec<Probe>,
    /// The crossing has been narrowed, and the rest of the budget goes to a
    /// size within the cap.
    pub cap_phase: bool,
}

impl Search {
    /// The bounds are those of the encoder, no CRF was probed twice or outside
    /// the bounds, and the budget was kept.
    pub open spec fn well_formed(self) -> bool {
        &&& self.lo <= self.hi <= CRF_LIMIT
        &&& self.probes@.len() <= self.max_probes
        &&& forall|i: int|
            0 <= i < self.probes@.len() ==> self.lo <= (#[trigger] self.probes@[i]).crf <= self.hi
        &&& forall|i: int, j: int|
            0 <= i < j < self.probes@.len() ==> self.probes@[i].crf != self.probes@[j].crf
    }

    /// Everything but the probes and the phase is the same.
    pub open spec fn same_terms(self, other: Search) -> bool {
        &&& self.lo == other.lo && self.hi == other.hi
        &&& self.target == other.target && self.ceiling == other.ceiling && self.cap == other.cap
        &&& self.min_probes == other.min_probes && self.max_probes == other.max_probes
    }

    /// The last probe is just above the target and within the cap, and enough
    /// probes have been made.
    pub open spec fn stops_early(self) -> bool {
        &&& self.probes@.len() > 0
        &&& self.probes@.len() >= self.min_probes
        &&& self.probes@.last().holds(self.target)
        &&& self.probes@.last().jod.at_most(self.ceiling)
        &&& self.probes@.last().fits(self.cap)
    }

    /// The CRF to probe next, and the phase that the search is then in.
    pub open spec fn next_step(self, estimate: Option<int>) -> (Option<int>, bool) {
        let pts = self.probes@;
        if self.stops_early() || pts.len() >= self.max_probes {
            (None, self.cap_phase)
        } else if self.cap_phase {
            (cap_step(pts, self.cap, self.hi as int), true)
        } else {
            match floor_step(pts, self.target, self.lo as int, self.hi as int, estimate) {
                Some(c) => (Some(c), false),
                None => if lowest_fitting(pts, self.cap) is None {
                    (cap_step(pts, self.cap, self.hi as int), true)
                } else {
                    (None, false)
                },
            }
        }
    }

    /// A search for the quality that a profile asks for. `ceiling` is the score
    /// that is the profile's tolerance above its target.
    pub fn new(tq: &TargetQualityConfig, ceiling: Real) -> (r: Search)
        requires
            tq.min_crf <= tq.max_crf <= 70,
        ensures
            r.well_formed(),
            r.lo == 4 * tq.min_crf && r.hi == 4 * tq.max_crf,
            r.target == tq.jod && r.ceiling == ceiling && r.cap == tq.max_encoded_percent,
            r.min_probes == tq.min_probes && r.max_probes == tq.max_probes,
            r.probes@.len() == 0,
            !r.cap_phase,
    {
        Search {
            lo: 4 * tq.min_crf,
            hi: 4 * tq.max_crf,
            target: tq.jod,
            ceiling,
            cap: tq.max_encoded_percent,
            min_probes: tq.min_probes,
            max_probes: tq.max_probes,
            probes: Vec::new(),
            cap_phase: false,
        }
    }

    /// Takes a probe into account.
    pub fn record(&mut self, probe: Probe)
        requires
            old(self).well_formed(),
            old(self).lo <= probe.crf <= old(self).hi,
            old(self).probes@.len() < old(self).max_probes,
            !probed(old(self).probes@, probe.crf as int),
        ensures
            final(self).well_formed(),
            final(self).same_terms(*old(self)),
            final(self).cap_phase == old(self).cap_phase,
            final(self).probes@ == old(self).probes@.push(probe),
    {
        self.probes.push(probe);
    }

    /// The CRF to probe next, if the search goes on. `estimate` is the CRF at
    /// which the score is expected to cross the target.
    pub fn next(&mut self, estimate: Real) -> (r: Option<u32>)
        requires
            old(self).well_formed(),
            can_step(old(self).probes@, old(self).target, estimate),
        ensures
            final(self).well_formed(),
            final(self).same_terms(*old(self)),
            final(self).probes@ == old(self).probes@,
            ({
                let (step, phase) = old(self).next_step(estimated(estimate));
                &&& final(self).cap_phase == phase
                &&& match step {
                    Some(c) => r == Some(c as u32) && c == r.unwrap(),
                    None => r is None,
                }
            }),
            r matches Some(c) ==> old(self).lo <= c <= old(self).hi && !probed(
                old(self).probes@,
                c as int,
            ) && old(self).probes@.len() < old(self).max_probes,
    {
        let count: usize = self.probes.len();
        proof {
            search_stays_within_its_terms(*self, estimated(estimate));
        }
        if count > 0 {
            let last = self.probes[count - 1];
            if count as u64 >= self.min_probes as u64 && self.target.le(last.jod) && last.jod.le(
                self.ceiling,
            ) && last.size_pct.le(self.cap) {
                return None;
            }
        }
        if count as u64 >= self.max_probes as u64 {
            return None;
        }
        if !self.cap_phase {
            let step = next_crf(self.probes.as_slice(), self.target, self.lo, self.hi, estimate);
            if step.is_some() {
                return step;
            }
            if find_lowest_fitting(self.probes.as_slice(), self.cap).is_some() {
                return None;
            }
            self.cap_phase = true;
        }
        next_under_cap(self.probes.as_slice(), self.cap, self.hi)
    }

    /// What the probes made so far call for.
    pub fn result(&self) -> (r: SolveResult)
        ensures
            r == decided(self.probes@, self.target, self.cap, self.lo),
    {
        decide(self.probes.as_slice(), self.target, self.cap, self.lo)
    }
}

/// Whatever is expected of the scores, a CRF that the search asks for lies
/// within its bounds, was not probed before, and is within its budget.
pub proof fn search_stays_within_its_terms(s: Search, estimate: Option<int>)
    requires
        s.well_formed(),
    ensures
        s.next_step(estimate).0 matches Some(c) ==> s.lo <= c <= s.hi && !probed(s.probes@, c)
            && s.probes@.len() < s.max_probes,
{
    let pts = s.probes@;
    if floor_step(pts, s.target, s.lo as int, s.hi as int, estimate) is Some {
        floor_steps_narrow_the_crossing(pts, s.target, s.lo as int, s.hi as int, estimate);
    }
    if cap_step(pts, s.cap, s.hi as int) is Some {
        cap_steps_narrow_the_size(pts, s.cap, s.lo as int, s.hi as int);
    }
}

/// Some probe neither holds the target nor falls short of it: one of the two is not
/// a number.
pub open spec fn unscored(pts: Seq<Probe>, target: Real) -> bool {
    exists|i: int|
        0 <= i < pts.len() && !(#[trigger] pts[i]).holds(target) && !pts[i].fails(target)
}

/// A search that stops of itself with budget left has found a probe close to
/// the target, or has narrowed the crossing to one step or to a bound; or a probe
/// gave a score that is no number; or, where it went on for a size within the cap,
/// it has narrowed that to one step. If no probe fits the cap, then the highest CRF
/// has been probed.
pub proof fn search_stops_for_a_reason(s: Search, estimate: Option<int>)
    requires
        s.well_formed(),
        0 < s.probes@.len() < s.max_probes,
        s.next_step(estimate).0 is None,
    ensures
        s.stops_early() || s.cap_phase || unscored(s.probes@, s.target) || match (
            highest_holding(s.probes@, s.target),
            lowest_failing(s.probes@, s.target),
        ) {
            (Some(p), Some(f)) => f <= p.crf + 1,
            (Some(p), None) => p.crf >= s.hi,
            (None, Some(f)) => f <= s.lo,
            (None, None) => false,
        },
        s.stops_early() || !s.cap_phase || match lowest_fitting(s.probes@, s.cap) {
            Some(f) => match highest_over(s.probes@, s.cap, f.crf) {
                Some(o) => o + 1 >= f.crf,
                None => true,
            },
            None => true,
        },
        lowest_fitting(s.probes@, s.cap) is None ==> probed(s.probes@, s.hi as int),
{
    lemma_extremes(s.probes@, s.target);
    lemma_lowest_fitting(s.probes@, s.cap);
    lemma_highest_probed(s.probes@);
    let pts = s.probes@;
    assert(pts[pts.len() - 1] == pts.last());
}

/// The CRF with which a search starts: the one that the profile sets for the
/// encoder, brought into the bounds, or else their middle. `parsed` is the
/// number that a value given as text stands for, if any.
pub open spec fn seed_of(
    value: Option<ParamValue>,
    parsed: Option<Real>,
    lo: int,
    hi: int,
) -> int {
    match value {
        Some(ParamValue::Int(i)) => clamp_int(4 * i, lo, hi),
        Some(ParamValue::Float { value, text: _ }) => clamp_int(nearest_quarters(value), lo, hi),
        Some(ParamValue::Str(_)) => match parsed {
            Some(v) => clamp_int(nearest_quarters(v), lo, hi),
            None => middle(lo, hi),
        },
        _ => middle(lo, hi),
    }
}

pub fn seed_crf(value: Option<&ParamValue>, parsed: Option<Real>, lo: u32, hi: u32) -> (r: u32)
    requires
        lo <= hi <= CRF_LIMIT,
        value matches Some(ParamValue::Float { value, text: _ }) ==> !value.nan(),
        parsed matches Some(v) ==> !v.nan(),
    ensures
        r == seed_of(crate::config::behind(value), parsed, lo as int, hi as int),
        lo <= r <= hi,
{
    let middle: u32 = (lo + hi + 1) / 2;
    match value {
        Some(ParamValue::Int(i)) => {
            let i: i64 = *i;
            if i < 0 || 4 * (i as i128) < lo as i128 {
                lo
            } else if 4 * (i as i128) > hi as i128 {
                hi
            } else {
                4 * (i as u32)
            }
        },
        Some(ParamValue::Float { value, text: _ }) => round_to_step(*value, lo, hi),
        Some(ParamValue::Str(_)) => match parsed {
            Some(v) => round_to_step(v, lo, hi),
            None => middle,
        },
        _ => middle,
    }
}

/// The source's own bytes for the frames `start..=end`, from the bytes up to
/// each frame; none where they are not known.
pub open spec fn source_bytes(cum: Seq<u64>, start: int, end: int) -> Option<int> {
    if 0 <= start < cum.len() && 0 <= end && end + 1 < cum.len() && cum[end + 1] > cum[start] {
        Some(cum[end + 1] - cum[start])
    } else {
        None
    }
}

pub fn chunk_source_bytes(cum: &[u64], start: u64, end: u64) -> (r: Option<u64>)
    ensures
        match source_bytes(cum@, start as int, end as int) {
            Some(n) => r == Some(n as u64) && n == r.unwrap(),
            None => r is None,
        },
{
    let count: u64 = cum.len() as u64;
    if start >= count || end >= count || end + 1 >= count {
        return None;
    }
    let lo: u64 = cum[start as usize];
    let hi: u64 = cum[end as usize + 1];
    if hi > lo {
        Some(hi - lo)
    } else {
        None
    }
}

/// The position of the probe that holds the target with the least score.
pub open spec fn just_above(pts: Seq<Probe>, target: Real) -> Option<int>
    decreases pts.len(),
{
    if pts.len() == 0 {
        None
    } else {
        let i = pts.len() - 1;
        match just_above(pts.drop_last(), target) {
            Some(k) => if pts[i].holds(target) && pts[i].jod.rank() < pts[k].jod.rank() {
                Some(i)
            } else {
                Some(k)
            },
            None => if pts[i].holds(target) {
                Some(i)
            } else {
                None
            },
        }
    }
}

/// The position of the probe below the target with the greatest score.
pub open spec fn just_below(pts: Seq<Probe>, target: Real) -> Option<int>
    decreases pts.len(),
{
    if pts.len() == 0 {
        None
    } else {
        let i = pts.len() - 1;
        match just_below(pts.drop_last(), target) {
            Some(k) => if pts[i].fails(target) && pts[i].jod.rank() >= pts[k].jod.rank() {
                Some(i)
            } else {
                Some(k)
            },
            None => if pts[i].fails(target) {
                Some(i)
            } else {
                None
            },
        }
    }
}

/// The position of the least of the distances, leaving out position `skip`.
pub open spec fn nearest_but(distances: Seq<Real>, skip: int) -> Option<int>
    decreases distances.len(),
{
    if distances.len() == 0 {
        None
    } else {
        let i = distances.len() - 1;
        match nearest_but(distances.drop_last(), skip) {
            Some(k) => if i != skip && distances[i].rank() < distances[k].rank() {
                Some(i)
            } else {
                Some(k)
            },
            None => if i != skip {
                Some(i)
            } else {
                None
            },
        }
    }
}

/// The two probes between which the crossing is estimated: one on each side of
/// the target, as near to it as there is, or else the two nearest to it.
pub open spec fn bracket(pts: Seq<Probe>, target: Real, distances: Seq<Real>) -> (int, int) {
    match (just_above(pts, target), just_below(pts, target)) {
        (Some(a), Some(b)) => (a, b),
        _ => {
            let first = nearest_but(distances, -1).unwrap();
            (first, nearest_but(distances, first).unwrap())
        },
    }
}

fn find_just_above(pts: &[Probe], target: Real) -> (r: Option<usize>)
    ensures
        match just_above(pts@, target) {
            Some(k) => r is Some && r.unwrap() == k && 0 <= k < pts@.len(),
            None => r is None,
        },
{
    let mut best: Option<usize> = None;
    let mut i: usize = 0;
    while i < pts.len()
        invariant
            i <= pts@.len(),
            match just_above(pts@.take(i as int), target) {
                Some(k) => best == Some(k as usize) && 0 <= k < i,
                None => best is None,
            },
        decreases pts@.len() - i,
    {
        assert(pts@.take(i + 1).drop_last() =~= pts@.take(i as int));
        assert(pts@.take(i + 1)[i as int] == pts@[i as int]);
        if target.le(pts[i].jod) {
            best = match best {
                Some(k) => {
                    assert(pts@.take(i + 1)[k as int] == pts@[k as int]);
                    if pts[i].jod.ranks_below(pts[k].jod) {
                        Some(i)
                    } else {
                        Some(k)
                    }
                },
                None => Some(i),
            };
        }
        i += 1;
    }
    assert(pts@.take(i as int) =~= pts@);
    best
}

fn find_just_below(pts: &[Probe], target: Real) -> (r: Option<usize>)
    ensures
        match just_below(pts@, target) {
            Some(k) => r is Some && r.unwrap() == k && 0 <= k < pts@.len(),
            None => r is None,
        },
{
    let mut best: Option<usize> = None;
    let mut i: usize = 0;
    while i < pts.len()
        invariant
            i <= pts@.len(),
            match just_below(pts@.take(i as int), target) {
                Some(k) => best == Some(k as usize) && 0 <= k < i,
                None => best is None,
            },
        decreases pts@.len() - i,
    {
        assert(pts@.take(i + 1).drop_last() =~= pts@.take(i as int));
        assert(pts@.take(i + 1)[i as int] == pts@[i as int]);
        if pts[i].jod.lt(target) {
            best = match best {
                Some(k) => {
                    assert(pts@.take(i + 1)[k as int] == pts@[k as int]);
                    if pts[i].jod.ranks_below(pts[k].jod) {
                        Some(k)
                    } else {
                        Some(i)
                    }
                },
                None => Some(i),
            };
        }
        i += 1;
    }
    assert(pts@.take(i as int) =~= pts@);
    best
}

fn find_nearest_but(distances: &[Real], skip: Option<usize>) -> (r: Option<usize>)
    ensures
        match nearest_but(
            distances@,
            if skip is Some {
                skip.unwrap() as int
            } else {
                -1
            },
        ) {
            Some(k) => r is Some && r.unwrap() == k && 0 <= k < distances@.len() && skip != r,
            None => r is None,
        },
        distances@.len() >= 2 || (distances@.len() == 1 && skip is None) ==> r is Some,
{
    let ghost out: int = if skip is Some {
        skip.unwrap() as int
    } else {
        -1
    };
    let mut best: Option<usize> = None;
    let mut i: usize = 0;
    while i < distances.len()
        invariant
            i <= distances@.len(),
            out == (if skip is Some {
                skip.unwrap() as int
            } else {
                -1
            }),
            match nearest_but(distances@.take(i as int), out) {
                Some(k) => best == Some(k as usize) && 0 <= k < i && k != out,
                None => best is None,
            },
            i >= 2 || (i == 1 && out != 0) ==> best is Some,
        decreases distances@.len() - i,
    {
        assert(distances@.take(i + 1).drop_last() =~= distances@.take(i as int));
        assert(distances@.take(i + 1)[i as int] == distances@[i as int]);
        let skipped = match skip {
            Some(k) => k == i,
            None => false,
        };
        if !skipped {
            best = match best {
                Some(k) => {
                    assert(distances@.take(i + 1)[k as int] == distances@[k as int]);
                    if distances[i].ranks_below(distances[k]) {
                        Some(i)
                    } else {
                        Some(k)
                    }
                },
                None => Some(i),
            };
        }
        i += 1;
    }
    assert(distances@.take(i as int) =~= distances@);
    best
}

/// The positions of the two probes between which the crossing is estimated.
/// `distances` holds how far the score of each probe is from the target.
pub fn bracket_pts(pts: &[Probe], target: Real, distances: &[Real]) -> (r: (usize, usize))
    requires
        pts@.len() >= 2,
        distances@.len() == pts@.len(),
    ensures
        (r.0 as int, r.1 as int) == bracket(pts@, target, distances@),
        r.0 < pts@.len() && r.1 < pts@.len() && r.0 != r.1,
{
    let above = find_just_above(pts, target);
    let below = find_just_below(pts, target);
    if let (Some(a), Some(b)) = (above, below) {
        proof {
            lemma_sides(pts@, target);
        }
        return (a, b);
    }
    match find_nearest_but(distances, None) {
        Some(first) => match find_nearest_but(distances, Some(first)) {
            Some(second) => (first, second),
            None => (0, 1),
        },
        None => (0, 1),
    }
}

proof fn lemma_sides(pts: Seq<Probe>, target: Real)
    ensures
        just_above(pts, target) matches Some(k) ==> 0 <= k < pts.len() && pts[k].holds(target),
        just_below(pts, target) matches Some(k) ==> 0 <= k < pts.len() && pts[k].fails(target),
    decreases pts.len(),
{
    if pts.len() > 0 {
        lemma_sides(pts.drop_last(), target);
    }
}

/// The cap is the harder constraint. Where some probe holds the score and some fits
/// the cap, but every one that fits has a higher CRF than every one that holds, the
/// lowest CRF that fits is taken; and wherever a probe that holds is not below all
/// that fit, the highest CRF that holds is.
pub proof fn the_cap_wins_over_the_floor(pts: Seq<Probe>, target: Real, cap: Real, lo: u32)
    ensures
        ({
            let r = decided(pts, target, cap, lo);
            let holding = exists|i: int|
                0 <= i < pts.len() && target.at_most((#[trigger] pts[i]).jod);
            let fitting = exists|i: int|
                0 <= i < pts.len() && (#[trigger] pts[i]).size_pct.at_most(cap);
            let apart = forall|i: int, j: int|
                0 <= i < pts.len() && 0 <= j < pts.len() && target.at_most(
                    (#[trigger] pts[i]).jod,
                ) && (#[trigger] pts[j]).size_pct.at_most(cap) ==> pts[i].crf < pts[j].crf;
            &&& holding && fitting && apart ==> r.outcome == SolveOutcome::CapBinding
                && r.size_pct.at_most(cap) && pts.contains(
                Probe { crf: r.crf, jod: r.jod, size_pct: r.size_pct },
            ) && forall|i: int|
                0 <= i < pts.len() && (#[trigger] pts[i]).size_pct.at_most(cap) ==> r.crf
                    <= pts[i].crf
            &&& holding && !(fitting && apart) ==> r.outcome == SolveOutcome::Met
                && target.at_most(r.jod) && pts.contains(
                Probe { crf: r.crf, jod: r.jod, size_pct: r.size_pct },
            ) && forall|i: int|
                0 <= i < pts.len() && target.at_most((#[trigger] pts[i]).jod) ==> pts[i].crf
                    <= r.crf
            &&& !holding ==> r.outcome == SolveOutcome::FloorUnreachable
        }),
{
    lemma_extremes(pts, target);
    lemma_lowest_fitting(pts, cap);
    if let Some(fl) = highest_holding(pts, target) {
        let k = choose|k: int| 0 <= k < pts.len() && pts[k] == fl;
        assert(target.at_most(pts[k].jod));
        assert(Probe { crf: fl.crf, jod: fl.jod, size_pct: fl.size_pct } == fl);
        if let Some(sz) = lowest_fitting(pts, cap) {
            let n = choose|n: int| 0 <= n < pts.len() && pts[n] == sz;
            assert(pts[n].size_pct.at_most(cap));
            assert(Probe { crf: sz.crf, jod: sz.jod, size_pct: sz.size_pct } == sz);
            if sz.crf > fl.crf {
                assert forall|i: int, j: int|
                    0 <= i < pts.len() && 0 <= j < pts.len() && target.at_most(
                        (#[trigger] pts[i]).jod,
                    ) && (#[trigger] pts[j]).size_pct.at_most(cap) implies pts[i].crf
                    < pts[j].crf by {
                    assert(pts[i].holds(target) && pts[j].fits(cap));
                }
            } else {
                assert(pts[n].crf <= pts[k].crf);
            }
        }
        assert forall|i: int|
            0 <= i < pts.len() && target.at_most((#[trigger] pts[i]).jod) implies pts[i].crf
            <= fl.crf by {
            assert(pts[i].holds(target));
        }
    } else {
        assert forall|i: int| 0 <= i < pts.len() implies !target.at_most(
            (#[trigger] pts[i]).jod,
        ) by {
            assert(!pts[i].holds(target));
        }
    }
    if let Some(sz) = lowest_fitting(pts, cap) {
        assert forall|i: int|
            0 <= i < pts.len() && (#[trigger] pts[i]).size_pct.at_most(cap) implies sz.crf
            <= pts[i].crf by {
            assert(pts[i].fits(cap));
        }
    } else {
        assert forall|i: int| 0 <= i < pts.len() implies !(#[trigger] pts[i]).size_pct.at_most(
            cap,
        ) by {
            assert(!pts[i].fits(cap));
        }
    }
}

/// Where sizes do not grow with the CRF and some probe fits the cap, the result is
/// within the cap, whatever the scores are.
pub proof fn results_keep_the_cap(pts: Seq<Probe>, target: Real, cap: Real, lo: u32, k: int)
    requires
        0 <= k < pts.len(),
        pts[k].size_pct.at_most(cap),
        forall|i: int, j: int|
            0 <= i < pts.len() && 0 <= j < pts.len() && (#[trigger] pts[i]).crf <= (
            #[trigger] pts[j]).crf ==> pts[j].size_pct.at_most(pts[i].size_pct),
    ensures
        decided(pts, target, cap, lo).size_pct.at_most(cap),
{
    lemma_extremes(pts, target);
    lemma_lowest_fitting(pts, cap);
    assert(pts[k].fits(cap));
    let sz = lowest_fitting(pts, cap).unwrap();
    let n = choose|n: int| 0 <= n < pts.len() && pts[n] == sz;
    if let Some(fl) = highest_holding(pts, target) {
        let m = choose|m: int| 0 <= m < pts.len() && pts[m] == fl;
        if sz.crf <= fl.crf {
            assert(pts[n].crf <= pts[m].crf);
        }
    }
}

/// Where no probe holds the score, the lowest CRF that fits the cap is taken, and
/// where none fits either, the best score of all.
pub proof fn an_unreachable_floor_gives_the_best_that_fits(
    pts: Seq<Probe>,
    target: Real,
    cap: Real,
    lo: u32,
)
    requires
        pts.len() > 0,
        forall|i: int| 0 <= i < pts.len() ==> !target.at_most((#[trigger] pts[i]).jod),
    ensures
        ({
            let r = decided(pts, target, cap, lo);
            let p = Probe { crf: r.crf, jod: r.jod, size_pct: r.size_pct };
            let fitting = exists|i: int|
                0 <= i < pts.len() && (#[trigger] pts[i]).size_pct.at_most(cap);
            &&& r.outcome == SolveOutcome::FloorUnreachable
            &&& pts.contains(p)
            &&& fitting ==> p.size_pct.at_most(cap) && forall|i: int|
                0 <= i < pts.len() && (#[trigger] pts[i]).size_pct.at_most(cap) ==> p.crf
                    <= pts[i].crf
            &&& !fitting ==> forall|i: int|
                0 <= i < pts.len() ==> !p.jod.less((#[trigger] pts[i]).jod)
        }),
{
    lemma_extremes(pts, target);
    lemma_lowest_fitting(pts, cap);
    lemma_best_quality(pts);
    if let Some(fl) = highest_holding(pts, target) {
        let k = choose|k: int| 0 <= k < pts.len() && pts[k] == fl;
        assert(target.at_most(pts[k].jod));
    }
    if let Some(sz) = lowest_fitting(pts, cap) {
        let n = choose|n: int| 0 <= n < pts.len() && pts[n] == sz;
        assert(pts[n].size_pct.at_most(cap));
        assert(Probe { crf: sz.crf, jod: sz.jod, size_pct: sz.size_pct } == sz);
        assert forall|i: int|
            0 <= i < pts.len() && (#[trigger] pts[i]).size_pct.at_most(cap) implies sz.crf
            <= pts[i].crf by {
            assert(pts[i].fits(cap));
        }
    } else {
        assert forall|i: int| 0 <= i < pts.len() implies !(#[trigger] pts[i]).size_pct.at_most(
            cap,
        ) by {
            assert(!pts[i].fits(cap));
        }
        let b = best_quality(pts).unwrap();
        assert(Probe { crf: b.crf, jod: b.jod, size_pct: b.size_pct } == b);
    }
}

/// With probes on both sides of the target the next one lies strictly between the
/// highest CRF that holds and the lowest that falls short: where the score is
/// expected to cross the target, as long as that is between them and new, and else
/// in the middle. There is none once the two are neighbours.
pub proof fn the_crossing_is_probed_where_it_is_expected(
    pts: Seq<Probe>,
    target: Real,
    lo: int,
    hi: int,
    e: int,
    i: int,
    j: int,
)
    requires
        0 <= i < pts.len() && 0 <= j < pts.len(),
        target.at_most(pts[i].jod),
        forall|k: int|
            0 <= k < pts.len() && target.at_most((#[trigger] pts[k]).jod) ==> pts[k].crf
                <= pts[i].crf,
        pts[j].jod.less(target),
        forall|k: int|
            0 <= k < pts.len() && (#[trigger] pts[k]).jod.less(target) ==> pts[j].crf
                <= pts[k].crf,
    ensures
        ({
            let p = pts[i].crf as int;
            let f = pts[j].crf as int;
            let step = floor_step(pts, target, lo, hi, Some(e));
            let new = forall|k: int| 0 <= k < pts.len() ==> (#[trigger] pts[k]).crf != e;
            &&& f <= p + 1 ==> step is None
            &&& p < e < f && new ==> step == Some(e)
            &&& f > p + 1 && !(p < e < f && new) ==> match step {
                Some(c) => p + f <= 2 * c <= p + f + 1,
                None => exists|k: int|
                    0 <= k < pts.len() && p + f <= 2 * (#[trigger] pts[k]).crf <= p + f + 1,
            }
        }),
{
    lemma_extremes(pts, target);
    assert(pts[i].holds(target) && pts[j].fails(target));
    let p = highest_holding(pts, target).unwrap();
    let n = choose|n: int| 0 <= n < pts.len() && pts[n] == p;
    assert(target.at_most(pts[n].jod));
    let f = lowest_failing(pts, target).unwrap();
    lemma_failing_is_probed(pts, target);
    let m = choose|m: int|
        0 <= m < pts.len() && (#[trigger] pts[m]).crf == f && pts[m].fails(target);
    assert(pts[m].jod.less(target));
    assert(p.crf == pts[i].crf && f == pts[j].crf);
    let mid = middle(p.crf as int, f as int);
    if probed(pts, mid) {
        let k = choose|k: int| 0 <= k < pts.len() && (#[trigger] pts[k]).crf == mid;
        assert(p.crf + f <= 2 * pts[k].crf <= p.crf + f + 1);
    }
}

proof fn lemma_failing_is_probed(pts: Seq<Probe>, target: Real)
    ensures
        lowest_failing(pts, target) matches Some(f) ==> exists|k: int|
            0 <= k < pts.len() && (#[trigger] pts[k]).crf == f && pts[k].fails(target),
    decreases pts.len(),
{
    if pts.len() > 0 {
        let init = pts.drop_last();
        lemma_failing_is_probed(init, target);
        assert(pts[pts.len() - 1] == pts.last());
        if let Some(q) = lowest_failing(init, target) {
            let k = choose|k: int|
                0 <= k < init.len() && (#[trigger] init[k]).crf == q && init[k].fails(target);
            assert(pts[k] == init[k]);
        }
    }
}

/// While every score holds, the search goes on to a higher CRF than any that held:
/// to the one where the score is expected to cross the target, or, where that is
/// not above them or beyond the bound, as near to it as there is. While every score
/// falls short, it goes down in the same way.
pub proof fn one_sided_searches_move_on(
    pts: Seq<Probe>,
    target: Real,
    lo: int,
    hi: int,
    e: int,
    i: int,
)
    requires
        0 <= i < pts.len(),
        forall|k: int| 0 <= k < pts.len() ==> lo <= (#[trigger] pts[k]).crf <= hi,
    ensures
        (target.at_most(pts[i].jod) && forall|k: int|
            0 <= k < pts.len() ==> target.at_most((#[trigger] pts[k]).jod) && pts[k].crf
                <= pts[i].crf) ==> ({
            let p = pts[i].crf as int;
            let step = floor_step(pts, target, lo, hi, Some(e));
            &&& p >= hi ==> step is None
            &&& p < e <= hi ==> step == Some(e)
            &&& p < hi && e <= p ==> step == Some(p + 1)
            &&& p < hi < e ==> step == Some(hi)
        }),
        (pts[i].jod.less(target) && forall|k: int|
            0 <= k < pts.len() ==> (#[trigger] pts[k]).jod.less(target) && pts[i].crf
                <= pts[k].crf) ==> ({
            let f = pts[i].crf as int;
            let step = floor_step(pts, target, lo, hi, Some(e));
            &&& f <= lo ==> step is None
            &&& lo <= e < f ==> step == Some(e)
            &&& lo < f && f <= e ==> step == Some(f - 1)
            &&& e < lo < f ==> step == Some(lo)
        }),
{
    lemma_extremes(pts, target);
    lemma_failing_is_probed(pts, target);
    if target.at_most(pts[i].jod) && forall|k: int|
        0 <= k < pts.len() ==> target.at_most((#[trigger] pts[k]).jod) && pts[k].crf
            <= pts[i].crf {
        assert(pts[i].holds(target));
        let p = highest_holding(pts, target).unwrap();
        let n = choose|n: int| 0 <= n < pts.len() && pts[n] == p;
        assert(pts[n].crf <= pts[i].crf);
        assert(lowest_failing(pts, target) is None) by {
            if lowest_failing(pts, target) is Some {
                let k = choose|k: int|
                    0 <= k < pts.len() && (#[trigger] pts[k]).crf == lowest_failing(
                        pts,
                        target,
                    ).unwrap() && pts[k].fails(target);
                assert(target.at_most(pts[k].jod));
            }
        }
        assert forall|c: int| c > p.crf implies !(#[trigger] probed(pts, c)) by {
            if probed(pts, c) {
                let k = choose|k: int| 0 <= k < pts.len() && (#[trigger] pts[k]).crf == c;
                assert(pts[k].crf <= pts[i].crf);
            }
        }
    }
    if pts[i].jod.less(target) && forall|k: int|
        0 <= k < pts.len() ==> (#[trigger] pts[k]).jod.less(target) && pts[i].crf
            <= pts[k].crf {
        assert(pts[i].fails(target));
        let f = lowest_failing(pts, target).unwrap();
        let m = choose|m: int|
            0 <= m < pts.len() && (#[trigger] pts[m]).crf == f && pts[m].fails(target);
        assert(pts[i].crf <= pts[m].crf);
        assert(highest_holding(pts, target) is None) by {
            if let Some(p) = highest_holding(pts, target) {
                let k = choose|k: int| 0 <= k < pts.len() && pts[k] == p;
                assert(pts[k].jod.less(target));
            }
        }
        assert forall|c: int| c < f implies !(#[trigger] probed(pts, c)) by {
            if probed(pts, c) {
                let k = choose|k: int| 0 <= k < pts.len() && (#[trigger] pts[k]).crf == c;
                assert(pts[i].crf <= pts[k].crf);
            }
        }
    }
}

/// While no probe fits the cap, the next one halves the way from the highest CRF
/// probed to the greatest; once one fits, the next halves the way between the lowest
/// that fits and the highest below it that does not, until they are neighbours.
pub proof fn the_cap_is_searched_by_halves(pts: Seq<Probe>, cap: Real, hi: int, i: int, j: int)
    requires
        0 <= i < pts.len() && 0 <= j < pts.len(),
    ensures
        (forall|k: int|
            0 <= k < pts.len() ==> !(#[trigger] pts[k]).size_pct.at_most(cap) && pts[k].crf
                <= pts[i].crf) ==> match cap_step(pts, cap, hi) {
            Some(c) => pts[i].crf < hi && pts[i].crf + hi <= 2 * c <= pts[i].crf + hi + 1,
            None => pts[i].crf >= hi,
        },
        (pts[i].size_pct.at_most(cap) && !pts[j].size_pct.at_most(cap) && pts[j].crf < pts[i].crf
            && (forall|k: int|
            0 <= k < pts.len() && (#[trigger] pts[k]).size_pct.at_most(cap) ==> pts[i].crf
                <= pts[k].crf) && (forall|k: int|
            0 <= k < pts.len() && !(#[trigger] pts[k]).size_pct.at_most(cap) && pts[k].crf
                < pts[i].crf ==> pts[k].crf <= pts[j].crf)) ==> match cap_step(pts, cap, hi) {
            Some(c) => pts[j].crf + 1 < pts[i].crf && pts[j].crf + pts[i].crf <= 2 * c
                <= pts[j].crf + pts[i].crf + 1,
            None => pts[j].crf + 1 >= pts[i].crf,
        },
{
    lemma_lowest_fitting(pts, cap);
    lemma_highest_probed(pts);
    if forall|k: int|
        0 <= k < pts.len() ==> !(#[trigger] pts[k]).size_pct.at_most(cap) && pts[k].crf
            <= pts[i].crf {
        assert(lowest_fitting(pts, cap) is None) by {
            if let Some(p) = lowest_fitting(pts, cap) {
                let k = choose|k: int| 0 <= k < pts.len() && pts[k] == p;
                assert(!pts[k].size_pct.at_most(cap));
            }
        }
        let h = highest_probed(pts).unwrap();
        let k = choose|k: int| 0 <= k < pts.len() && (#[trigger] pts[k]).crf == h;
        assert(pts[k].crf <= pts[i].crf);
        assert(pts[i].crf <= h);
    }
    if pts[i].size_pct.at_most(cap) && !pts[j].size_pct.at_most(cap) && pts[j].crf < pts[i].crf
        && (forall|k: int|
        0 <= k < pts.len() && (#[trigger] pts[k]).size_pct.at_most(cap) ==> pts[i].crf
            <= pts[k].crf) && (forall|k: int|
        0 <= k < pts.len() && !(#[trigger] pts[k]).size_pct.at_most(cap) && pts[k].crf
            < pts[i].crf ==> pts[k].crf <= pts[j].crf) {
        assert(pts[i].fits(cap) && !pts[j].fits(cap));
        let f = lowest_fitting(pts, cap).unwrap();
        let n = choose|n: int| 0 <= n < pts.len() && pts[n] == f;
        assert(pts[n].size_pct.at_most(cap));
        assert(f.crf == pts[i].crf);
        lemma_highest_over(pts, cap, f.crf);
        lemma_over_is_probed(pts, cap, f.crf);
        let o = highest_over(pts, cap, f.crf).unwrap();
        let m = choose|m: int|
            0 <= m < pts.len() && (#[trigger] pts[m]).crf == o && !pts[m].fits(cap);
        assert(!pts[m].size_pct.at_most(cap));
        assert(o == pts[j].crf);
    }
}

proof fn lemma_over_is_probed(pts: Seq<Probe>, cap: Real, below: u32)
    ensures
        highest_over(pts, cap, below) matches Some(o) ==> o < below && exists|k: int|
            0 <= k < pts.len() && (#[trigger] pts[k]).crf == o && !pts[k].fits(cap),
    decreases pts.len(),
{
    if pts.len() > 0 {
        let init = pts.drop_last();
        lemma_over_is_probed(init, cap, below);
        assert(pts[pts.len() - 1] == pts.last());
        if let Some(q) = highest_over(init, cap, below) {
            let k = choose|k: int|
                0 <= k < init.len() && (#[trigger] init[k]).crf == q && !init[k].fits(cap);
            assert(pts[k] == init[k]);
        }
    }
}

/// A search asks for another probe exactly as long as its budget lasts and the last
/// probe is not good enough: enough probes were made, it holds the score by no more
/// than the tolerance, and it is within the cap. The cap is searched only once the
/// crossing is found and no probe fits.
pub proof fn searches_follow_their_terms(s: Search, estimate: Option<int>)
    ensures
        ({
            let pts = s.probes@;
            let last = pts.last();
            let enough = pts.len() > 0 && pts.len() >= s.min_probes && s.target.at_most(last.jod)
                && last.jod.at_most(s.ceiling) && last.size_pct.at_most(s.cap);
            let fits = exists|i: int|
                0 <= i < pts.len() && (#[trigger] pts[i]).size_pct.at_most(s.cap);
            let (step, phase) = s.next_step(estimate);
            let crossing = floor_step(pts, s.target, s.lo as int, s.hi as int, estimate);
            &&& enough || pts.len() >= s.max_probes ==> step is None && phase == s.cap_phase
            &&& !enough && pts.len() < s.max_probes && !s.cap_phase && crossing is Some ==> step
                == crossing && !phase
            &&& !enough && pts.len() < s.max_probes && !s.cap_phase && crossing is None && fits
                ==> step is None
            &&& !enough && pts.len() < s.max_probes && (s.cap_phase || (crossing is None
                && !fits)) ==> step == cap_step(pts, s.cap, s.hi as int) && phase
        }),
{
    lemma_lowest_fitting(s.probes@, s.cap);
    if let Some(p) = lowest_fitting(s.probes@, s.cap) {
        let k = choose|k: int| 0 <= k < s.probes@.len() && s.probes@[k] == p;
        assert(s.probes@[k].size_pct.at_most(s.cap));
    } else {
        assert forall|i: int| 0 <= i < s.probes@.len() implies !(
        #[trigger] s.probes@[i]).size_pct.at_most(s.cap) by {
            assert(!s.probes@[i].fits(s.cap));
        }
    }
}

/// A whole CRF in the profile that lies within the bounds is where the search starts;
/// one outside of them starts it at the nearer bound, and without one it starts
/// halfway.
pub proof fn searches_start_at_the_profiles_crf(crf: i64, lo: int, hi: int)
    requires
        lo <= hi,
    ensures
        lo <= 4 * crf <= hi ==> seed_of(Some(ParamValue::Int(crf)), None, lo, hi) == 4 * crf,
        4 * crf < lo ==> seed_of(Some(ParamValue::Int(crf)), None, lo, hi) == lo,
        4 * crf > hi ==> seed_of(Some(ParamValue::Int(crf)), None, lo, hi) == hi,
        lo + hi <= 2 * seed_of(None, None, lo, hi) <= lo + hi + 1,
        forall|text: String, v: Real| #[trigger]
            seed_of(Some(ParamValue::Str(text)), Some(v), lo, hi) == clamp_int(
                nearest_quarters(v),
                lo,
                hi,
            ),
        forall|text: String, v: Real| #[trigger]
            seed_of(Some(ParamValue::Float { value: v, text }), None, lo, hi) == clamp_int(
                nearest_quarters(v),
                lo,
                hi,
            ),
{
}

/// The bytes of two neighbouring chunks of the source are together those of both as
/// one, and they are known wherever the bytes up to each frame are.
pub proof fn source_bytes_add_up(cum: Seq<u64>, a: int, b: int, c: int)
    requires
        0 <= a < b <= c,
        c + 1 < cum.len(),
        cum[a] < cum[b] < cum[c + 1],
    ensures
        source_bytes(cum, a, b - 1) is Some && source_bytes(cum, b, c) is Some && source_bytes(
            cum,
            a,
            c,
        ) is Some,
        source_bytes(cum, a, b - 1).unwrap() + source_bytes(cum, b, c).unwrap() == source_bytes(
            cum,
            a,
            c,
        ).unwrap(),
        source_bytes(cum, a, c).unwrap() == cum[c + 1] - cum[a],
{
}

/// The crossing is estimated between the least score that holds and the greatest
/// that falls short, where there are both; and else between the two scores that are
/// nearest to the target.
pub proof fn estimates_lie_next_to_the_target(
    pts: Seq<Probe>,
    target: Real,
    distances: Seq<Real>,
    k: int,
)
    requires
        pts.len() >= 2,
        distances.len() == pts.len(),
        0 <= k < pts.len(),
    ensures
        ({
            let (a, b) = bracket(pts, target, distances);
            let above = exists|i: int|
                0 <= i < pts.len() && target.at_most((#[trigger] pts[i]).jod);
            let below = exists|i: int| 0 <= i < pts.len() && (#[trigger] pts[i]).jod.less(target);
            &&& 0 <= a < pts.len() && 0 <= b < pts.len() && a != b
            &&& above && below ==> target.at_most(pts[a].jod) && pts[b].jod.less(target)
            &&& above && below && target.at_most(pts[k].jod) ==> pts[a].jod.rank()
                <= pts[k].jod.rank()
            &&& above && below && pts[k].jod.less(target) ==> pts[k].jod.rank()
                <= pts[b].jod.rank()
            &&& !(above && below) ==> distances[a].rank() <= distances[k].rank() && (k == a
                || distances[b].rank() <= distances[k].rank())
        }),
{
    lemma_just_above(pts, target);
    lemma_just_below(pts, target);
    lemma_nearest(distances, -1);
    let first = nearest_but(distances, -1).unwrap();
    lemma_nearest(distances, first);
    if just_above(pts, target) is None {
        assert forall|i: int| 0 <= i < pts.len() implies !target.at_most(
            (#[trigger] pts[i]).jod,
        ) by {
            assert(!pts[i].holds(target));
        }
    } else {
        assert(target.at_most(pts[just_above(pts, target).unwrap()].jod));
    }
    if just_below(pts, target) is None {
        assert forall|i: int| 0 <= i < pts.len() implies !(#[trigger] pts[i]).jod.less(
            target,
        ) by {
            assert(!pts[i].fails(target));
        }
    } else {
        assert(pts[just_below(pts, target).unwrap()].jod.less(target));
    }
    assert(pts[k].holds(target) == target.at_most(pts[k].jod));
    assert(pts[k].fails(target) == pts[k].jod.less(target));
}

proof fn lemma_just_above(pts: Seq<Probe>, target: Real)
    ensures
        match just_above(pts, target) {
            Some(a) => 0 <= a < pts.len() && pts[a].holds(target) && forall|i: int|
                0 <= i < pts.len() && (#[trigger] pts[i]).holds(target) ==> pts[a].jod.rank()
                    <= pts[i].jod.rank(),
            None => forall|i: int| 0 <= i < pts.len() ==> !(#[trigger] pts[i]).holds(target),
        },
    decreases pts.len(),
{
    if pts.len() > 0 {
        let init = pts.drop_last();
        lemma_just_above(init, target);
        assert(forall|i: int| 0 <= i < init.len() ==> init[i] == pts[i]);
    }
}

proof fn lemma_just_below(pts: Seq<Probe>, target: Real)
    ensures
        match just_below(pts, target) {
            Some(a) => 0 <= a < pts.len() && pts[a].fails(target) && forall|i: int|
                0 <= i < pts.len() && (#[trigger] pts[i]).fails(target) ==> pts[i].jod.rank()
                    <= pts[a].jod.rank(),
            None => forall|i: int| 0 <= i < pts.len() ==> !(#[trigger] pts[i]).fails(target),
        },
    decreases pts.len(),
{
    if pts.len() > 0 {
        let init = pts.drop_last();
        lemma_just_below(init, target);
        assert(forall|i: int| 0 <= i < init.len() ==> init[i] == pts[i]);
    }
}

proof fn lemma_nearest(distances: Seq<Real>, skip: int)
    ensures
        match nearest_but(distances, skip) {
            Some(a) => 0 <= a < distances.len() && a != skip && forall|i: int|
                0 <= i < distances.len() && i != skip ==> distances[a].rank() <= (
                #[trigger] distances[i]).rank(),
            None => distances.len() == 0 || (distances.len() == 1 && skip == 0),
        },
    decreases distances.len(),
{
    if distances.len() > 0 {
        let init = distances.drop_last();
        lemma_nearest(init, skip);
        assert(forall|i: int| 0 <= i < init.len() ==> init[i] == distances[i]);
    }
}

/// Without an estimate the search takes one step: up from the highest CRF that holds
/// while every score holds, and down from the lowest that falls short while every score
/// does.
pub proof fn searches_without_an_estimate_take_one_step(
    pts: Seq<Probe>,
    target: Real,
    lo: int,
    hi: int,
    i: int,
)
    requires
        0 <= i < pts.len(),
        forall|k: int| 0 <= k < pts.len() ==> lo <= (#[trigger] pts[k]).crf <= hi,
    ensures
        (forall|k: int|
            0 <= k < pts.len() ==> target.at_most((#[trigger] pts[k]).jod) && pts[k].crf
                <= pts[i].crf) ==> floor_step(pts, target, lo, hi, None) == (if pts[i].crf < hi {
            Some(pts[i].crf + 1)
        } else {
            None
        }),
        (forall|k: int|
            0 <= k < pts.len() ==> (#[trigger] pts[k]).jod.less(target) && pts[i].crf
                <= pts[k].crf) ==> floor_step(pts, target, lo, hi, None) == (if pts[i].crf > lo {
            Some(pts[i].crf - 1)
        } else {
            None
        }),
{
    let p = pts[i].crf as int;
    one_sided_searches_move_on(pts, target, lo, hi, p, i);
    lemma_extremes(pts, target);
    lemma_failing_is_probed(pts, target);
    if forall|k: int|
        0 <= k < pts.len() ==> target.at_most((#[trigger] pts[k]).jod) && pts[k].crf
            <= pts[i].crf {
        assert(target.at_most(pts[i].jod));
        assert(pts[i].holds(target));
        if let Some(f) = lowest_failing(pts, target) {
            let k = choose|k: int|
                0 <= k < pts.len() && (#[trigger] pts[k]).crf == f && pts[k].fails(target);
            assert(target.at_most(pts[k].jod));
        }
        let q = highest_holding(pts, target).unwrap();
        let n = choose|n: int| 0 <= n < pts.len() && pts[n] == q;
        assert(pts[n].crf <= pts[i].crf);
        assert(!probed(pts, p + 1)) by {
            if probed(pts, p + 1) {
                let k = choose|k: int| 0 <= k < pts.len() && (#[trigger] pts[k]).crf == p + 1;
                assert(pts[k].crf <= pts[i].crf);
            }
        }
    }
    if forall|k: int|
        0 <= k < pts.len() ==> (#[trigger] pts[k]).jod.less(target) && pts[i].crf <= pts[k].crf {
        assert(pts[i].jod.less(target));
        assert(pts[i].fails(target));
        if let Some(q) = highest_holding(pts, target) {
            let n = choose|n: int| 0 <= n < pts.len() && pts[n] == q;
            assert(pts[n].jod.less(target));
        }
        let f = lowest_failing(pts, target).unwrap();
        let m = choose|m: int|
            0 <= m < pts.len() && (#[trigger] pts[m]).crf == f && pts[m].fails(target);
        assert(pts[i].crf <= pts[m].crf);
        assert(!probed(pts, p - 1)) by {
            if probed(pts, p - 1) {
                let k = choose|k: int| 0 <= k < pts.len() && (#[trigger] pts[k]).crf == p - 1;
                assert(pts[i].crf <= pts[k].crf);
            }
        }
    }
}

/// An estimate counts exactly when it is a number, and then as the step nearest to it.
pub proof fn estimates_are_rounded_to_a_step(estimate: Real)
    ensures
        estimated(estimate) is None <==> estimate.nan(),
        !estimate.nan() ==> estimated(estimate) == Some(nearest_quarters(estimate)),
{
}

/// Without probes there is nothing to decide on: the lowest CRF is taken, and neither a
/// score nor a size is known.
pub proof fn without_probes_the_lowest_crf_is_taken(target: Real, cap: Real, lo: u32)
    ensures
        ({
            let r = decided(Seq::empty(), target, cap, lo);
            &&& r.crf == lo
            &&& r.jod.nan() && r.size_pct.nan()
            &&& r.outcome == SolveOutcome::FloorUnreachable
        }),
{
}

/// The bytes of a chunk of the source are known exactly when the bytes up to its first
/// frame and behind its last one are, and there are some between.
pub proof fn source_bytes_lie_between_the_frames(cum: Seq<u64>, start: int, end: int)
    requires
        0 <= start,
        0 <= end,
    ensures
        source_bytes(cum, start, end) is Some <==> start < cum.len() && end + 1 < cum.len()
            && cum[start] < cum[end + 1],
        source_bytes(cum, start, end) matches Some(n) ==> n > 0 && cum[start] + n == cum[end + 1],
{
}

/// A search begins with the terms of the profile, its CRFs in quarter steps, and without
/// probes.
pub proof fn searches_begin_with_the_profiles_terms(
    tq: &TargetQualityConfig,
    ceiling: Real,
    s: Search,
)
    requires
        tq.min_crf <= tq.max_crf <= 70,
        call_ensures(Search::new, (tq, ceiling), s),
    ensures
        s.lo == 4 * tq.min_crf,
        s.hi == 4 * tq.max_crf,
        s.target == tq.jod,
        s.ceiling == ceiling,
        s.cap == tq.max_encoded_percent,
        s.min_probes == tq.min_probes,
        s.max_probes == tq.max_probes,
        s.probes@.len() == 0,
        !s.cap_phase,
{
}

/// Of equal scores the later probe is the best one, and the later one stands just below
/// the target; just above it the earlier one does.
pub proof fn equal_scores_are_told_by_their_place(pts: Seq<Probe>, p: Probe, target: Real, k: int)
    requires
        pts.len() > 0,
    ensures
        best_quality(pts) matches Some(b) ==> (b.jod == p.jod ==> best_quality(pts.push(p)) == Some(
            p,
        )),
        just_below(pts, target) == Some(k) && 0 <= k < pts.len() && pts[k].jod == p.jod && p.fails(
            target,
        ) ==> just_below(pts.push(p), target) == Some(pts.len() as int),
        just_above(pts, target) == Some(k) && 0 <= k < pts.len() && pts[k].jod == p.jod
            ==> just_above(pts.push(p), target) == Some(k),
{
    assert(pts.push(p).drop_last() =~= pts);
    assert(pts.push(p).last() == p);
}

} // verus!
