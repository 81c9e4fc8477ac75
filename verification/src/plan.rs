//! Cutting a movie into segments.
//!
//! Times in seconds are floating point numbers, which are the caller's business:
//! they come in as functions on ticks of a track's timescale.

use std::ops::Range;

use vstd::prelude::*;

use crate::mp4::{
    first_video, in_decode_order, parted_at, video_from, Mp4, Mp4View, Sample, Track, TrackView,
};

verus! {

/// A length of time, as a playlist states it.
#[derive(Clone, Copy, PartialEq, Eq, Structural, Debug)]
pub struct Length {
    /// In seconds, rounded up.
    pub ceiling: u64,
    /// In microseconds, rounded to the nearest.
    pub micros: u128,
}

/// One segment: where each track's samples start and stop.
pub struct Segment {
    pub duration: Length,
    /// `(track index, sample range)`, in track order. Empty ranges are dropped.
    pub runs: Vec<(usize, Range<usize>)>,
}

/// What a [`Segment`] holds.
pub struct SegmentView {
    pub duration: Length,
    pub runs: Seq<(usize, Range<usize>)>,
}

impl View for Segment {
    type V = SegmentView;

    open spec fn view(&self) -> SegmentView {
        SegmentView { duration: self.duration, runs: self.runs@ }
    }
}

// --- cut points ----------------------------------------------------------

/// The track that drives the cuts: the first video track, else the first track.
pub open spec fn reference(tracks: Seq<TrackView>) -> int {
    match first_video(tracks) {
        Some(i) => i,
        None => 0,
    }
}

/// The decode time of the last cut before sample `i`, where `chosen` says which
/// samples start a segment. The first segment starts at 0.
pub open spec fn last_cut(samples: Seq<Sample>, chosen: Seq<bool>, i: int) -> u64
    decreases i,
{
    if i <= 0 {
        0
    } else if chosen[i - 1] {
        samples[i - 1].dts
    } else {
        last_cut(samples, chosen, i - 1)
    }
}

/// The decode times of the cuts up to sample `i`.
pub open spec fn cut_times(samples: Seq<Sample>, chosen: Seq<bool>, i: int) -> Seq<u64>
    decreases i,
{
    if i <= 0 {
        seq![0]
    } else if chosen[i - 1] {
        cut_times(samples, chosen, i - 1).push(samples[i - 1].dts)
    } else {
        cut_times(samples, chosen, i - 1)
    }
}

/// The samples up to `i` that start a segment: the first, and the chosen ones.
pub open spec fn cut_samples(chosen: Seq<bool>, i: int) -> Seq<usize>
    decreases i,
{
    if i <= 0 {
        seq![0]
    } else if chosen[i - 1] {
        cut_samples(chosen, i - 1).push((i - 1) as usize)
    } else {
        cut_samples(chosen, i - 1)
    }
}

/// Whether `chosen` are the samples that start a segment: the sync samples behind the
/// first sample that lie far enough from the cut before them.
pub open spec fn chosen_by<F: Fn(u64, u64) -> bool>(
    far_enough: F,
    samples: Seq<Sample>,
    chosen: Seq<bool>,
) -> bool {
    &&& chosen.len() == samples.len()
    &&& forall|i: int|
        #![trigger chosen[i]]
        0 <= i < samples.len() ==> if i > 0 && samples[i].is_sync {
            call_ensures(far_enough, (last_cut(samples, chosen, i), samples[i].dts), chosen[i])
        } else {
            !chosen[i]
        }
}

proof fn lemma_cuts_agree(
    s: Seq<Sample>,
    a: Seq<bool>,
    t: Seq<Sample>,
    b: Seq<bool>,
    i: int,
)
    requires
        forall|k: int| 0 <= k < i ==> #[trigger] s[k] == t[k],
        forall|k: int| 0 <= k < i ==> #[trigger] a[k] == b[k],
    ensures
        last_cut(s, a, i) == last_cut(t, b, i),
        cut_times(s, a, i) == cut_times(t, b, i),
        cut_samples(a, i) == cut_samples(b, i),
    decreases i,
{
    if i > 0 {
        assert(a[i - 1] == b[i - 1]);
        assert(s[i - 1] == t[i - 1]);
        lemma_cuts_agree(s, a, t, b, i - 1);
    }
}

/// Where segments start: the samples of the reference track, and their decode times,
/// except that the first segment starts at 0.
pub struct Cuts {
    pub samples: Vec<usize>,
    pub times: Vec<u64>,
}

/// Picks where segments start.
pub fn pick_cuts<F: Fn(u64, u64) -> bool>(samples: &[Sample], far_enough: F) -> (r: Cuts)
    requires
        forall|last: u64, dts: u64| call_requires(far_enough, (last, dts)),
    ensures
        exists|chosen: Seq<bool>| #[trigger]
            chosen_by(far_enough, samples@, chosen) && r.times@ == cut_times(
                samples@,
                chosen,
                samples@.len() as int,
            ) && r.samples@ == cut_samples(chosen, samples@.len() as int),
{
    let mut starts: Vec<usize> = Vec::new();
    starts.push(0);
    let mut cuts: Vec<u64> = Vec::new();
    cuts.push(0);
    let mut last: u64 = 0;
    let ghost mut chosen: Seq<bool> = Seq::empty();
    let mut i: usize = 0;
    assert(cuts@ =~= cut_times(samples@, chosen, 0));
    assert(starts@ =~= cut_samples(chosen, 0));
    while i < samples.len()
        invariant
            forall|last: u64, dts: u64| call_requires(far_enough, (last, dts)),
            i <= samples@.len(),
            chosen.len() == i,
            chosen_by(far_enough, samples@.take(i as int), chosen),
            last == last_cut(samples@, chosen, i as int),
            cuts@ == cut_times(samples@, chosen, i as int),
            starts@ == cut_samples(chosen, i as int),
        decreases samples@.len() - i,
    {
        let sample: Sample = samples[i];
        let mut cut = false;
        if i > 0 && sample.is_sync {
            cut = far_enough(last, sample.dts);
        }
        let ghost before = chosen;
        if cut {
            starts.push(i);
            cuts.push(sample.dts);
            last = sample.dts;
        }
        proof {
            chosen = chosen.push(cut);
            let now = samples@.take(i + 1);
            let past = samples@.take(i as int);
            lemma_cuts_agree(samples@, before, samples@, chosen, i as int);
            assert forall|k: int| #![trigger chosen[k]] 0 <= k < now.len() implies if k > 0
                && now[k].is_sync {
                call_ensures(far_enough, (last_cut(now, chosen, k), now[k].dts), chosen[k])
            } else {
                !chosen[k]
            } by {
                lemma_cuts_agree(past, before, now, chosen, k);
                lemma_cuts_agree(samples@, before, now, chosen, k);
                if k < i {
                    assert(chosen[k] == before[k]);
                    assert(now[k] == past[k]);
                }
            }
        }
        i = i + 1;
    }
    assert(samples@.take(i as int) =~= samples@);
    Cuts { samples: starts, times: cuts }
}

// --- sample ranges -------------------------------------------------------

/// Whether `bound` parts the samples that are decoded before `tick` from the rest,
/// where there is such a place.
pub open spec fn is_bound(samples: Seq<Sample>, tick: u64, bound: usize) -> bool {
    &&& bound <= samples.len()
    &&& forall|p: int| #[trigger] parted_at(samples, tick, p) ==> bound == p
    &&& in_decode_order(samples) ==> parted_at(samples, tick, bound as int)
}

/// Whether `bounds` are where the samples are cut at `ticks`, and where they end.
pub open spec fn are_bounds(samples: Seq<Sample>, ticks: Seq<u64>, bounds: Seq<usize>) -> bool {
    &&& bounds.len() == ticks.len() + 1
    &&& bounds.last() == samples.len()
    &&& forall|k: int|
        0 <= k < ticks.len() ==> is_bound(samples, #[trigger] ticks[k], bounds[k])
}

/// Turns cut times into sample indices.
pub fn track_bounds(track: &Track, ticks: &[u64]) -> (r: Vec<usize>)
    ensures
        are_bounds(track@.samples, ticks@, r@),
{
    let mut bounds: Vec<usize> = Vec::new();
    let mut k: usize = 0;
    while k < ticks.len()
        invariant
            k <= ticks@.len(),
            bounds@.len() == k,
            forall|j: int|
                0 <= j < k ==> is_bound(track@.samples, #[trigger] ticks@[j], bounds@[j]),
        decreases ticks@.len() - k,
    {
        bounds.push(track.sample_at(ticks[k]));
        k = k + 1;
    }
    bounds.push(track.samples.len());
    bounds
}

/// What segment `k` schedules of the first `n` tracks: for each the samples between
/// two bounds, if there are any.
pub open spec fn runs_at(bounds: Seq<Seq<usize>>, k: int, n: int) -> Seq<(usize, Range<usize>)>
    decreases n,
{
    if n <= 0 {
        Seq::empty()
    } else {
        let before = runs_at(bounds, k, n - 1);
        let start = bounds[n - 1][k];
        let end = bounds[n - 1][k + 1];
        if start < end {
            before.push(((n - 1) as usize, Range { start, end }))
        } else {
            before
        }
    }
}

/// What the elements of `bounds` hold.
pub open spec fn bound_views(bounds: Seq<Vec<usize>>) -> Seq<Seq<usize>> {
    bounds.map_values(|b: Vec<usize>| b@)
}

/// Collects what segment `k` schedules of each track.
pub fn segment_runs(bounds: &[Vec<usize>], k: usize) -> (r: Vec<(usize, Range<usize>)>)
    requires
        forall|t: int| 0 <= t < bounds@.len() ==> k + 1 < (#[trigger] bounds@[t])@.len(),
    ensures
        r@ == runs_at(bound_views(bounds@), k as int, bounds@.len() as int),
{
    let mut runs: Vec<(usize, Range<usize>)> = Vec::new();
    let mut t: usize = 0;
    while t < bounds.len()
        invariant
            forall|t: int| 0 <= t < bounds@.len() ==> k + 1 < (#[trigger] bounds@[t])@.len(),
            t <= bounds@.len(),
            runs@ == runs_at(bound_views(bounds@), k as int, t as int),
        decreases bounds@.len() - t,
    {
        assert(k + 1 < bounds@[t as int].len());
        let start: usize = bounds[t][k];
        let end: usize = bounds[t][k + 1];
        assert(bound_views(bounds@)[t as int] == bounds@[t as int]@);
        if start < end {
            runs.push((t, Range { start, end }));
        }
        t = t + 1;
    }
    runs
}

// --- plans ---------------------------------------------------------------

/// Whether `ticks` are the cut times of a track with timescale `reference_scale`, as
/// `tick` converts them to timescale `scale`.
pub open spec fn are_ticks<G: Fn(u64, u32, u32) -> u64>(
    tick: G,
    reference_scale: u32,
    scale: u32,
    cuts: Seq<u64>,
    ticks: Seq<u64>,
) -> bool {
    &&& ticks.len() == cuts.len()
    &&& forall|k: int|
        0 <= k < cuts.len() ==> call_ensures(
            tick,
            (cuts[k], reference_scale, scale),
            #[trigger] ticks[k],
        )
}

/// The end of segment `k`: the next cut, or none for the last segment, which ends with
/// the movie.
pub open spec fn end_of(cuts: Seq<u64>, k: int) -> Option<u64> {
    if k + 1 < cuts.len() {
        Some(cuts[k + 1])
    } else {
        None
    }
}

/// Whether track `t` of movie `m` is cut at `bounds`. The reference track is cut at the
/// chosen samples themselves; any other track at the first sample at or after each cut
/// time, which `ticks` give in its own timescale.
pub open spec fn is_cut_at<G: Fn(u64, u32, u32) -> u64>(
    m: Mp4View,
    tick: G,
    chosen: Seq<bool>,
    t: int,
    ticks: Seq<u64>,
    bounds: Seq<usize>,
) -> bool {
    let lead = m.tracks[reference(m.tracks)];
    let count = lead.samples.len();
    let cuts = cut_times(lead.samples, chosen, count as int);
    if t == reference(m.tracks) {
        ticks == cuts && bounds == cut_samples(chosen, count as int).push(count as usize)
    } else {
        are_ticks(tick, lead.timescale, m.tracks[t].timescale, cuts, ticks) && are_bounds(
            m.tracks[t].samples,
            ticks,
            bounds,
        )
    }
}

/// Whether `segments` is the plan of movie `m` that follows from which samples of the
/// reference track start a segment, from the cut times in ticks of each track, and
/// from the bounds between samples that these give.
pub open spec fn is_plan<
    F: Fn(u64, u64) -> bool,
    G: Fn(u64, u32, u32) -> u64,
    H: Fn(u64, Option<u64>) -> Length,
>(
    m: Mp4View,
    far_enough: F,
    tick: G,
    length: H,
    chosen: Seq<bool>,
    ticks: Seq<Seq<u64>>,
    bounds: Seq<Seq<usize>>,
    segments: Seq<SegmentView>,
) -> bool {
    let lead = m.tracks[reference(m.tracks)];
    let cuts = cut_times(lead.samples, chosen, lead.samples.len() as int);
    &&& chosen_by(far_enough, lead.samples, chosen)
    &&& ticks.len() == bounds.len() == m.tracks.len()
    &&& forall|t: int|
        #![trigger ticks[t]]
        #![trigger bounds[t]]
        0 <= t < ticks.len() ==> is_cut_at(m, tick, chosen, t, ticks[t], bounds[t])
    &&& segments.len() == cuts.len()
    &&& forall|k: int|
        #![trigger segments[k]]
        0 <= k < segments.len() ==> call_ensures(
            length,
            (cuts[k], end_of(cuts, k)),
            segments[k].duration,
        ) && segments[k].runs == runs_at(bounds, k, bounds.len() as int)
}

fn to_ticks<G: Fn(u64, u32, u32) -> u64>(
    cuts: &[u64],
    tick: &G,
    reference_scale: u32,
    scale: u32,
) -> (r: Vec<u64>)
    requires
        forall|cut: u64, from: u32, to: u32| call_requires(*tick, (cut, from, to)),
    ensures
        are_ticks(*tick, reference_scale, scale, cuts@, r@),
{
    let mut ticks: Vec<u64> = Vec::new();
    let mut k: usize = 0;
    while k < cuts.len()
        invariant
            forall|cut: u64, from: u32, to: u32| call_requires(*tick, (cut, from, to)),
            k <= cuts@.len(),
            ticks@.len() == k,
            forall|j: int|
                0 <= j < k ==> call_ensures(
                    *tick,
                    (cuts@[j], reference_scale, scale),
                    #[trigger] ticks@[j],
                ),
        decreases cuts@.len() - k,
    {
        ticks.push(tick(cuts[k], reference_scale, scale));
        k = k + 1;
    }
    ticks
}

/// The starts of all segments, and the end of the last.
fn closed_by(starts: &[usize], end: usize) -> (r: Vec<usize>)
    ensures
        r@ == starts@.push(end),
{
    let mut bounds: Vec<usize> = Vec::new();
    bounds.extend_from_slice(starts);
    bounds.push(end);
    assert(bounds@ =~= starts@.push(end));
    bounds
}

proof fn lemma_cut_lengths(samples: Seq<Sample>, chosen: Seq<bool>, i: int)
    ensures
        cut_times(samples, chosen, i).len() == cut_samples(chosen, i).len(),
        cut_samples(chosen, i).len() > 0,
        cut_samples(chosen, i)[0] == 0,
    decreases i,
{
    if i > 0 {
        lemma_cut_lengths(samples, chosen, i - 1);
    }
}

/// What the elements of `segments` hold.
pub open spec fn segment_views(segments: Seq<Segment>) -> Seq<SegmentView> {
    segments.map_values(|s: Segment| s@)
}

/// Cuts the movie into segments.
///
/// Video is cut only at keyframes, so real durations drift towards the source's
/// GOP length; every other track follows those same wall-clock boundaries.
///
/// `far_enough` tells whether a decode time of the reference track lies far enough
/// behind the last cut, `tick` converts a cut time from the reference track's
/// timescale to another, and `length` measures a segment from its start to its end,
/// or to the end of the movie.
pub fn plan_segments<
    F: Fn(u64, u64) -> bool,
    G: Fn(u64, u32, u32) -> u64,
    H: Fn(u64, Option<u64>) -> Length,
>(mp4: &Mp4, far_enough: F, tick: G, length: H) -> (r: Vec<Segment>)
    requires
        mp4@.tracks.len() > 0,
        forall|last: u64, dts: u64| call_requires(far_enough, (last, dts)),
        forall|cut: u64, from: u32, to: u32| call_requires(tick, (cut, from, to)),
        forall|from: u64, to: Option<u64>| call_requires(length, (from, to)),
    ensures
        exists|chosen: Seq<bool>, ticks: Seq<Seq<u64>>, bounds: Seq<Seq<usize>>| #[trigger]
            is_plan(mp4@, far_enough, tick, length, chosen, ticks, bounds, segment_views(r@)),
{
    // Video drives the cuts. Without a video track the first track does.
    let lead: usize = match mp4.video_index() {
        Some(i) => i,
        None => 0,
    };
    let track: &Track = &mp4.tracks[lead];
    let count: usize = track.samples.len();
    let picked: Cuts = pick_cuts(track.samples.as_slice(), far_enough);
    let ghost chosen = choose|chosen: Seq<bool>| #[trigger]
        chosen_by(far_enough, track@.samples, chosen) && picked.times@ == cut_times(
            track@.samples,
            chosen,
            count as int,
        ) && picked.samples@ == cut_samples(chosen, count as int);
    let cuts: Vec<u64> = picked.times;
    let starts: Vec<usize> = picked.samples;
    proof {
        lemma_cut_lengths(track@.samples, chosen, count as int);
    }

    // Per track, turn the cuts into sample indices. The reference track is cut at the
    // keyframes that were picked, the others at the same times.
    let ghost mut all_ticks: Seq<Seq<u64>> = Seq::empty();
    let mut bounds: Vec<Vec<usize>> = Vec::new();
    let mut t: usize = 0;
    while t < mp4.tracks.len()
        invariant
            forall|cut: u64, from: u32, to: u32| call_requires(tick, (cut, from, to)),
            t <= mp4.tracks@.len() == mp4@.tracks.len(),
            lead == reference(mp4@.tracks) < mp4@.tracks.len(),
            track@ == mp4@.tracks[lead as int],
            count == track@.samples.len(),
            cuts@ == cut_times(track@.samples, chosen, count as int),
            starts@ == cut_samples(chosen, count as int),
            starts@.len() == cuts@.len(),
            all_ticks.len() == bounds@.len() == t,
            forall|i: int|
                #![trigger all_ticks[i]]
                #![trigger bounds@[i]]
                0 <= i < t ==> is_cut_at(mp4@, tick, chosen, i, all_ticks[i], bounds@[i]@)
                    && bounds@[i]@.len() == cuts@.len() + 1,
        decreases mp4.tracks@.len() - t,
    {
        if t == lead {
            bounds.push(closed_by(starts.as_slice(), count));
            proof {
                all_ticks = all_ticks.push(cuts@);
            }
        } else {
            let ticks: Vec<u64> = to_ticks(
                cuts.as_slice(),
                &tick,
                track.timescale,
                mp4.tracks[t].timescale,
            );
            bounds.push(track_bounds(&mp4.tracks[t], ticks.as_slice()));
            proof {
                all_ticks = all_ticks.push(ticks@);
            }
        }
        t = t + 1;
    }

    let ghost views = bound_views(bounds@);
    let mut segments: Vec<Segment> = Vec::new();
    let mut k: usize = 0;
    while k < cuts.len()
        invariant
            forall|from: u64, to: Option<u64>| call_requires(length, (from, to)),
            segments@.len() == k <= cuts@.len(),
            views == bound_views(bounds@),
            forall|i: int|
                0 <= i < bounds@.len() ==> (#[trigger] bounds@[i])@.len() == cuts@.len() + 1,
            forall|j: int|
                #![trigger segment_views(segments@)[j]]
                0 <= j < k ==> call_ensures(
                    length,
                    (cuts@[j], end_of(cuts@, j)),
                    segment_views(segments@)[j].duration,
                ) && segment_views(segments@)[j].runs == runs_at(views, j, views.len() as int),
        decreases cuts@.len() - k,
    {
        let end: Option<u64> = if k + 1 < cuts.len() {
            Some(cuts[k + 1])
        } else {
            None
        };
        let duration: Length = length(cuts[k], end);
        let runs: Vec<(usize, Range<usize>)> = segment_runs(bounds.as_slice(), k);
        let ghost before = segment_views(segments@);
        segments.push(Segment { duration, runs });
        assert(segment_views(segments@) =~= before.push(segments@[k as int]@));
        k = k + 1;
    }
    proof {
        let r = segment_views(segments@);
        assert(is_plan(mp4@, far_enough, tick, length, chosen, all_ticks, views, r));
    }
    segments
}

// --- what a plan promises ------------------------------------------------

/// The indices that a range holds, in order.
pub open spec fn indices(r: Range<usize>) -> Seq<int> {
    Seq::new(
        if r.start < r.end {
            (r.end - r.start) as nat
        } else {
            0
        },
        |i: int| r.start + i,
    )
}

/// The samples of track `t` that the first `n` runs schedule, in order.
pub open spec fn scheduled_in(runs: Seq<(usize, Range<usize>)>, t: int, n: int) -> Seq<int>
    decreases n,
{
    if n <= 0 {
        Seq::empty()
    } else if runs[n - 1].0 == t {
        scheduled_in(runs, t, n - 1) + indices(runs[n - 1].1)
    } else {
        scheduled_in(runs, t, n - 1)
    }
}

/// The samples of track `t` that the first `n` segments schedule, in order.
pub open spec fn scheduled(segments: Seq<SegmentView>, t: int, n: int) -> Seq<int>
    decreases n,
{
    if n <= 0 {
        Seq::empty()
    } else {
        let runs = segments[n - 1].runs;
        scheduled(segments, t, n - 1) + scheduled_in(runs, t, runs.len() as int)
    }
}

/// The numbers below `n`, in order.
pub open spec fn numbers_below(n: int) -> Seq<int> {
    Seq::new(n as nat, |i: int| i)
}

/// Whether the conversion between timescales keeps 0 and the order of times.
pub open spec fn keeps_order<G: Fn(u64, u32, u32) -> u64>(tick: G) -> bool {
    &&& forall|from: u32, to: u32, x: u64| call_ensures(tick, (0u64, from, to), x) ==> x == 0
    &&& forall|a: u64, b: u64, from: u32, to: u32, x: u64, y: u64|
        a <= b && #[trigger] call_ensures(tick, (a, from, to), x) && #[trigger] call_ensures(
            tick,
            (b, from, to),
            y,
        ) ==> x <= y
}

proof fn lemma_scheduled_agree(
    a: Seq<(usize, Range<usize>)>,
    b: Seq<(usize, Range<usize>)>,
    t: int,
    n: int,
)
    requires
        n <= a.len() <= b.len(),
        a == b.take(a.len() as int),
    ensures
        scheduled_in(a, t, n) == scheduled_in(b, t, n),
    decreases n,
{
    if n > 0 {
        assert(a[n - 1] == b[n - 1]);
        lemma_scheduled_agree(a, b, t, n - 1);
    }
}

proof fn lemma_runs_schedule(bounds: Seq<Seq<usize>>, k: int, n: int, t: int)
    requires
        0 <= n <= bounds.len() <= usize::MAX,
        0 <= t < bounds.len(),
    ensures
        scheduled_in(runs_at(bounds, k, n), t, runs_at(bounds, k, n).len() as int) == (if t < n {
            indices(Range { start: bounds[t][k], end: bounds[t][k + 1] })
        } else {
            Seq::empty()
        }),
    decreases n,
{
    if n > 0 {
        lemma_runs_schedule(bounds, k, n - 1, t);
        let before = runs_at(bounds, k, n - 1);
        let now = runs_at(bounds, k, n);
        let range = Range { start: bounds[n - 1][k], end: bounds[n - 1][k + 1] };
        if range.start < range.end {
            assert(before =~= now.take(before.len() as int));
            lemma_scheduled_agree(before, now, t, before.len() as int);
            if t == n - 1 {
                assert(Seq::<int>::empty() + indices(range) =~= indices(range));
            }
        } else if t == n - 1 {
            assert(indices(range) =~= Seq::empty());
        }
    }
}

proof fn lemma_cuts_sorted(samples: Seq<Sample>, chosen: Seq<bool>, i: int)
    requires
        0 <= i <= samples.len(),
        in_decode_order(samples),
    ensures
        ({
            let cuts = cut_times(samples, chosen, i);
            &&& cuts.len() > 0
            &&& cuts[0] == 0
            &&& forall|a: int, b: int| 0 <= a <= b < cuts.len() ==> cuts[a] <= cuts[b]
            &&& forall|a: int, j: int|
                0 <= a < cuts.len() && i <= j < samples.len() ==> cuts[a] <= samples[j].dts
        }),
    decreases i,
{
    if i > 0 {
        lemma_cuts_sorted(samples, chosen, i - 1);
    }
}

proof fn lemma_bounds_ascend(samples: Seq<Sample>, ticks: Seq<u64>, bounds: Seq<usize>, k: int)
    requires
        are_bounds(samples, ticks, bounds),
        in_decode_order(samples),
        forall|a: int, b: int| 0 <= a <= b < ticks.len() ==> ticks[a] <= ticks[b],
        0 <= k < ticks.len(),
    ensures
        bounds[k] <= bounds[k + 1],
{
    assert(is_bound(samples, ticks[k], bounds[k]));
    if k + 1 < ticks.len() {
        assert(is_bound(samples, ticks[k + 1], bounds[k + 1]));
        if bounds[k] > bounds[k + 1] {
            assert(samples[bounds[k + 1] as int].dts >= ticks[k + 1]);
        }
    }
}

proof fn lemma_scheduled(segments: Seq<SegmentView>, bounds: Seq<Seq<usize>>, t: int, n: int)
    requires
        0 <= t < bounds.len() <= usize::MAX,
        bounds[t].len() == segments.len() + 1,
        bounds[t][0] == 0,
        forall|k: int|
            0 <= k < segments.len() ==> #[trigger] bounds[t][k] <= bounds[t][k + 1],
        forall|k: int|
            0 <= k < segments.len() ==> (#[trigger] segments[k]).runs == runs_at(
                bounds,
                k,
                bounds.len() as int,
            ),
        0 <= n <= segments.len(),
    ensures
        scheduled(segments, t, n) == numbers_below(bounds[t][n] as int),
    decreases n,
{
    if n > 0 {
        lemma_scheduled(segments, bounds, t, n - 1);
        lemma_runs_schedule(bounds, n - 1, bounds.len() as int, t);
        assert(bounds[t][n - 1] <= bounds[t][n - 1 + 1]);
        assert(segments[n - 1].runs == runs_at(bounds, n - 1, bounds.len() as int));
        assert(numbers_below(bounds[t][n - 1] as int) + indices(
            Range { start: bounds[t][n - 1], end: bounds[t][n] },
        ) =~= numbers_below(bounds[t][n] as int));
    } else {
        assert(numbers_below(0) =~= Seq::empty());
    }
}

proof fn lemma_cut_samples(chosen: Seq<bool>, i: int)
    requires
        0 <= i <= chosen.len() <= usize::MAX,
        chosen.len() > 0 ==> !chosen[0],
    ensures
        ({
            let starts = cut_samples(chosen, i);
            &&& forall|a: int, b: int| 0 <= a < b < starts.len() ==> starts[a] < starts[b]
            &&& forall|a: int| 0 <= a < starts.len() && i > 0 ==> #[trigger] starts[a] < i
            &&& forall|a: int| 0 < a < starts.len() ==> chosen[#[trigger] starts[a] as int]
        }),
    decreases i,
{
    if i > 0 {
        lemma_cut_samples(chosen, i - 1);
        let before = cut_samples(chosen, i - 1);
        let starts = cut_samples(chosen, i);
        if i == 1 {
            assert(starts == before && before =~= seq![0usize]);
        } else if chosen[i - 1] {
            assert(starts == before.push((i - 1) as usize));
        }
    }
}

/// Every sample of the reference track lands in exactly one segment, in order, whatever
/// the caller's functions on times answer.
pub proof fn law_segments_partition_the_reference_track<
    F: Fn(u64, u64) -> bool,
    G: Fn(u64, u32, u32) -> u64,
    H: Fn(u64, Option<u64>) -> Length,
>(
    m: Mp4View,
    far_enough: F,
    tick: G,
    length: H,
    chosen: Seq<bool>,
    ticks: Seq<Seq<u64>>,
    bounds: Seq<Seq<usize>>,
    segments: Seq<SegmentView>,
)
    requires
        is_plan(m, far_enough, tick, length, chosen, ticks, bounds, segments),
        0 < m.tracks.len() <= usize::MAX,
        m.tracks[reference(m.tracks)].samples.len() <= usize::MAX,
    ensures
        scheduled(segments, reference(m.tracks), segments.len() as int) == numbers_below(
            m.tracks[reference(m.tracks)].samples.len() as int,
        ),
{
    lemma_reference(m.tracks);
    let t = reference(m.tracks);
    let count = m.tracks[t].samples.len() as int;
    lemma_cut_lengths(m.tracks[t].samples, chosen, count);
    lemma_cut_samples(chosen, count);
    assert(is_cut_at(m, tick, chosen, t, ticks[t], bounds[t]));
    assert forall|k: int| 0 <= k < segments.len() implies #[trigger] bounds[t][k] <= bounds[t][k
        + 1] by {}
    lemma_scheduled(segments, bounds, t, segments.len() as int);
}

/// Every sample of every track lands in exactly one segment, in order, as long as the
/// samples are in decode order and the conversion between timescales keeps the order
/// of times.
pub proof fn law_segments_partition_every_track<
    F: Fn(u64, u64) -> bool,
    G: Fn(u64, u32, u32) -> u64,
    H: Fn(u64, Option<u64>) -> Length,
>(
    m: Mp4View,
    far_enough: F,
    tick: G,
    length: H,
    chosen: Seq<bool>,
    ticks: Seq<Seq<u64>>,
    bounds: Seq<Seq<usize>>,
    segments: Seq<SegmentView>,
    t: int,
)
    requires
        is_plan(m, far_enough, tick, length, chosen, ticks, bounds, segments),
        m.tracks.len() <= usize::MAX,
        m.tracks[reference(m.tracks)].samples.len() <= usize::MAX,
        forall|i: int|
            0 <= i < m.tracks.len() ==> in_decode_order((#[trigger] m.tracks[i]).samples),
        keeps_order(tick),
        0 <= t < m.tracks.len(),
    ensures
        scheduled(segments, t, segments.len() as int) == numbers_below(
            m.tracks[t].samples.len() as int,
        ),
{
    if t == reference(m.tracks) {
        law_segments_partition_the_reference_track(
            m,
            far_enough,
            tick,
            length,
            chosen,
            ticks,
            bounds,
            segments,
        );
    } else {
        lemma_reference(m.tracks);
        let lead = m.tracks[reference(m.tracks)];
        let samples = m.tracks[t].samples;
        let cuts = cut_times(lead.samples, chosen, lead.samples.len() as int);
        lemma_cuts_sorted(lead.samples, chosen, lead.samples.len() as int);
        let own = ticks[t];
        assert(is_cut_at(m, tick, chosen, t, own, bounds[t]));
        assert forall|a: int, b: int| 0 <= a <= b < own.len() implies own[a] <= own[b] by {
            assert(cuts[a] <= cuts[b]);
            assert(call_ensures(tick, (cuts[a], lead.timescale, m.tracks[t].timescale), own[a]));
            assert(call_ensures(tick, (cuts[b], lead.timescale, m.tracks[t].timescale), own[b]));
        }
        assert(call_ensures(tick, (cuts[0], lead.timescale, m.tracks[t].timescale), own[0]));
        assert(is_bound(samples, own[0], bounds[t][0]));
        assert(parted_at(samples, 0, 0));
        assert forall|k: int| 0 <= k < segments.len() implies #[trigger] bounds[t][k]
            <= bounds[t][k + 1] by {
            lemma_bounds_ascend(samples, own, bounds[t], k);
        }
        lemma_scheduled(segments, bounds, t, segments.len() as int);
    }
}

proof fn lemma_reference(tracks: Seq<TrackView>)
    requires
        tracks.len() > 0,
    ensures
        0 <= reference(tracks) < tracks.len(),
{
    lemma_video_from(tracks, 0);
}

proof fn lemma_video_from(tracks: Seq<TrackView>, i: int)
    requires
        0 <= i,
    ensures
        match video_from(tracks, i) {
            Some(v) => i <= v < tracks.len(),
            None => true,
        },
    decreases tracks.len() - i,
{
    if i < tracks.len() {
        lemma_video_from(tracks, i + 1);
    }
}

proof fn lemma_cut_time(samples: Seq<Sample>, chosen: Seq<bool>, i: int, k: int)
    requires
        0 <= i <= samples.len() == chosen.len(),
        chosen.len() <= usize::MAX,
        0 < k < cut_samples(chosen, i).len(),
    ensures
        ({
            let c = cut_samples(chosen, i)[k] as int;
            &&& 0 <= c < i
            &&& chosen[c]
            &&& k < cut_times(samples, chosen, i).len()
            &&& cut_times(samples, chosen, i)[k] == samples[c].dts
        }),
    decreases i,
{
    if i > 0 {
        lemma_cut_lengths(samples, chosen, i - 1);
        if k < cut_samples(chosen, i - 1).len() {
            lemma_cut_time(samples, chosen, i - 1, k);
        }
    }
}

/// Each run of a segment is the stretch of a track between two bounds.
pub proof fn lemma_run_of(bounds: Seq<Seq<usize>>, k: int, n: int, j: int)
    requires
        0 <= n <= bounds.len() <= usize::MAX,
        0 <= j < runs_at(bounds, k, n).len(),
    ensures
        ({
            let run = runs_at(bounds, k, n)[j];
            &&& run.0 < n
            &&& run.1.start == bounds[run.0 as int][k]
            &&& run.1.end == bounds[run.0 as int][k + 1]
            &&& run.1.start < run.1.end
        }),
    decreases n,
{
    if n > 0 {
        if j < runs_at(bounds, k, n - 1).len() {
            lemma_run_of(bounds, k, n - 1, j);
        }
    }
}

/// The reference track is cut only at keyframes: every segment but the first starts it at
/// a sync sample, whose decode time is the cut, and the first starts it at its first
/// sample. No segment goes without samples of it.
pub proof fn law_segments_start_on_keyframes<
    F: Fn(u64, u64) -> bool,
    G: Fn(u64, u32, u32) -> u64,
    H: Fn(u64, Option<u64>) -> Length,
>(
    m: Mp4View,
    far_enough: F,
    tick: G,
    length: H,
    chosen: Seq<bool>,
    ticks: Seq<Seq<u64>>,
    bounds: Seq<Seq<usize>>,
    segments: Seq<SegmentView>,
    k: int,
)
    requires
        is_plan(m, far_enough, tick, length, chosen, ticks, bounds, segments),
        0 < m.tracks.len() <= usize::MAX,
        0 < m.tracks[reference(m.tracks)].samples.len() <= usize::MAX,
        0 <= k < segments.len(),
    ensures
        ({
            let lead = reference(m.tracks);
            let samples = m.tracks[lead].samples;
            let cuts = cut_times(samples, chosen, samples.len() as int);
            exists|j: int|
                0 <= j < segments[k].runs.len() && (#[trigger] segments[k].runs[j]).0 == lead && {
                    let start = segments[k].runs[j].1.start as int;
                    &&& start < samples.len()
                    &&& k == 0 ==> start == 0
                    &&& k > 0 ==> samples[start].is_sync && samples[start].dts == cuts[k]
                }
        }),
{
    lemma_reference(m.tracks);
    let lead = reference(m.tracks);
    let samples = m.tracks[lead].samples;
    let count = samples.len() as int;
    let starts = cut_samples(chosen, count);
    assert(is_cut_at(m, tick, chosen, lead, ticks[lead], bounds[lead]));
    lemma_cut_lengths(samples, chosen, count);
    lemma_cut_samples(chosen, count);
    if k > 0 {
        lemma_cut_time(samples, chosen, count, k);
        assert(chosen[starts[k] as int]);
    }
    assert(starts[k] < count);
    let j = lemma_run_at(bounds, k, bounds.len() as int, lead);
    assert(segments[k].runs[j].0 == lead);
}

/// A track with samples between two bounds has a run.
pub proof fn lemma_run_at(bounds: Seq<Seq<usize>>, k: int, n: int, t: int) -> (j: int)
    requires
        0 <= t < n <= bounds.len() <= usize::MAX,
        bounds[t][k] < bounds[t][k + 1],
    ensures
        0 <= j < runs_at(bounds, k, n).len(),
        runs_at(bounds, k, n)[j].0 == t,
        runs_at(bounds, k, n)[j].1.start == bounds[t][k],
    decreases n,
{
    if t == n - 1 {
        runs_at(bounds, k, n).len() - 1
    } else {
        lemma_run_at(bounds, k, n - 1, t)
    }
}

/// Every other track follows the cuts of the reference track: each of its runs starts at
/// its first sample that is decoded at or after the cut, and ends before the first that
/// is decoded at or after the next cut, as long as its samples are in decode order.
pub proof fn law_runs_follow_the_cuts<
    F: Fn(u64, u64) -> bool,
    G: Fn(u64, u32, u32) -> u64,
    H: Fn(u64, Option<u64>) -> Length,
>(
    m: Mp4View,
    far_enough: F,
    tick: G,
    length: H,
    chosen: Seq<bool>,
    ticks: Seq<Seq<u64>>,
    bounds: Seq<Seq<usize>>,
    segments: Seq<SegmentView>,
    k: int,
    j: int,
)
    requires
        is_plan(m, far_enough, tick, length, chosen, ticks, bounds, segments),
        m.tracks.len() <= usize::MAX,
        0 <= k < segments.len(),
        0 <= j < segments[k].runs.len(),
        segments[k].runs[j].0 != reference(m.tracks),
        forall|t: int|
            0 <= t < m.tracks.len() ==> in_decode_order((#[trigger] m.tracks[t]).samples),
    ensures
        ({
            let (t, range) = segments[k].runs[j];
            let samples = m.tracks[t as int].samples;
            &&& t < m.tracks.len()
            &&& range.start < range.end
            &&& parted_at(samples, ticks[t as int][k], range.start as int)
            &&& if k + 1 < segments.len() {
                parted_at(samples, ticks[t as int][k + 1], range.end as int)
            } else {
                range.end == samples.len()
            }
        }),
{
    lemma_run_of(bounds, k, bounds.len() as int, j);
    let t = segments[k].runs[j].0 as int;
    let samples = m.tracks[t].samples;
    assert(is_cut_at(m, tick, chosen, t, ticks[t], bounds[t]));
    assert(is_bound(samples, ticks[t][k], bounds[t][k]));
    if k + 1 < segments.len() {
        assert(is_bound(samples, ticks[t][k + 1], bounds[t][k + 1]));
    }
}

/// The number of sync samples behind the first sample, among the first `i`.
pub open spec fn later_sync_samples(samples: Seq<Sample>, i: int) -> nat
    decreases i,
{
    if i <= 1 {
        0
    } else if samples[i - 1].is_sync {
        later_sync_samples(samples, i - 1) + 1
    } else {
        later_sync_samples(samples, i - 1)
    }
}

/// However short the target, there is a first segment and at most one more for each sync
/// sample behind the first sample.
pub proof fn law_no_more_segments_than_keyframes<F: Fn(u64, u64) -> bool>(
    far_enough: F,
    samples: Seq<Sample>,
    chosen: Seq<bool>,
)
    requires
        chosen_by(far_enough, samples, chosen),
    ensures
        1 <= cut_times(samples, chosen, samples.len() as int).len() <= 1 + later_sync_samples(
            samples,
            samples.len() as int,
        ),
{
    lemma_cut_count(far_enough, samples, chosen, samples.len() as int);
}

proof fn lemma_cut_count<F: Fn(u64, u64) -> bool>(
    far_enough: F,
    samples: Seq<Sample>,
    chosen: Seq<bool>,
    i: int,
)
    requires
        chosen_by(far_enough, samples, chosen),
        0 <= i <= samples.len(),
    ensures
        1 <= cut_times(samples, chosen, i).len() <= 1 + later_sync_samples(samples, i),
    decreases i,
{
    if i > 0 {
        lemma_cut_count(far_enough, samples, chosen, i - 1);
        assert(chosen[i - 1] ==> i > 1 && samples[i - 1].is_sync);
    }
}

/// The bounds of a plan lie inside the track.
pub proof fn lemma_bounds_within<
    F: Fn(u64, u64) -> bool,
    G: Fn(u64, u32, u32) -> u64,
    H: Fn(u64, Option<u64>) -> Length,
>(
    m: Mp4View,
    far_enough: F,
    tick: G,
    length: H,
    chosen: Seq<bool>,
    ticks: Seq<Seq<u64>>,
    bounds: Seq<Seq<usize>>,
    segments: Seq<SegmentView>,
    t: int,
    k: int,
)
    requires
        is_plan(m, far_enough, tick, length, chosen, ticks, bounds, segments),
        m.tracks[reference(m.tracks)].samples.len() <= usize::MAX,
        0 <= t < m.tracks.len(),
        0 <= k <= segments.len(),
    ensures
        bounds[t].len() == segments.len() + 1,
        bounds[t][k] <= m.tracks[t].samples.len(),
{
    let samples = m.tracks[reference(m.tracks)].samples;
    let count = samples.len() as int;
    assert(is_cut_at(m, tick, chosen, t, ticks[t], bounds[t]));
    lemma_cut_lengths(samples, chosen, count);
    lemma_cut_samples(chosen, count);
    if t == reference(m.tracks) {
        if 0 < k < segments.len() {
            lemma_cut_time(samples, chosen, count, k);
        }
    } else if k < segments.len() {
        assert(is_bound(m.tracks[t].samples, ticks[t][k], bounds[t][k]));
    }
}

/// Cuts among the first samples stay when more samples follow.
proof fn lemma_cuts_prefix(samples: Seq<Sample>, chosen: Seq<bool>, i: int, n: int)
    requires
        0 <= i <= n <= chosen.len() <= usize::MAX,
        samples.len() == chosen.len(),
    ensures
        ({
            let some = cut_samples(chosen, i);
            let all = cut_samples(chosen, n);
            &&& some.len() <= all.len()
            &&& forall|a: int| 0 <= a < some.len() ==> #[trigger] some[a] == all[a]
            &&& forall|a: int| some.len() <= a < all.len() ==> i <= #[trigger] all[a]
            &&& forall|a: int|
                0 <= a < some.len() ==> #[trigger] cut_times(samples, chosen, i)[a] == cut_times(
                    samples,
                    chosen,
                    n,
                )[a]
        }),
    decreases n - i,
{
    lemma_cut_lengths(samples, chosen, i);
    lemma_cut_lengths(samples, chosen, n);
    if i < n {
        lemma_cut_lengths(samples, chosen, n - 1);
        lemma_cuts_prefix(samples, chosen, i, n - 1);
        let less = cut_samples(chosen, n - 1);
        let all = cut_samples(chosen, n);
        assert forall|a: int| cut_samples(chosen, i).len() <= a < all.len() implies i
            <= #[trigger] all[a] by {
            if a < less.len() {
                assert(all[a] == less[a]);
            }
        }
    }
}

proof fn lemma_last_cut(samples: Seq<Sample>, chosen: Seq<bool>, i: int)
    requires
        0 <= i <= chosen.len(),
    ensures
        last_cut(samples, chosen, i) == cut_times(samples, chosen, i).last(),
    decreases i,
{
    lemma_cut_lengths(samples, chosen, i);
    if i > 0 {
        lemma_cut_lengths(samples, chosen, i - 1);
        lemma_last_cut(samples, chosen, i - 1);
    }
}

/// Between two cuts no sample is chosen, and the last cut is the first of the two.
proof fn lemma_between_cuts(samples: Seq<Sample>, chosen: Seq<bool>, k: int, i: int)
    requires
        samples.len() == chosen.len() <= usize::MAX,
        0 < chosen.len(),
        !chosen[0],
        0 <= k < cut_samples(chosen, chosen.len() as int).len(),
        cut_samples(chosen, chosen.len() as int)[k] < i <= chosen.len(),
        k + 1 < cut_samples(chosen, chosen.len() as int).len() ==> i <= cut_samples(
            chosen,
            chosen.len() as int,
        )[k + 1],
    ensures
        last_cut(samples, chosen, i) == cut_times(samples, chosen, chosen.len() as int)[k],
        i < chosen.len() && (k + 1 < cut_samples(chosen, chosen.len() as int).len() ==> i
            < cut_samples(chosen, chosen.len() as int)[k + 1]) ==> !chosen[i],
{
    let n = chosen.len() as int;
    let all = cut_samples(chosen, n);
    let some = cut_samples(chosen, i);
    lemma_cuts_prefix(samples, chosen, i, n);
    lemma_cut_samples(chosen, i);
    lemma_cut_lengths(samples, chosen, i);
    lemma_last_cut(samples, chosen, i);
    if k >= some.len() {
        assert(i <= all[k]);
    }
    if k + 1 < some.len() {
        assert(some[k + 1] < i);
        assert(all[k + 1] == some[k + 1]);
    }
    assert(some.len() == k + 1);
    assert(cut_times(samples, chosen, i)[k] == cut_times(samples, chosen, n)[k]);
    if i < n && chosen[i] {
        lemma_cuts_prefix(samples, chosen, i + 1, n);
        let more = cut_samples(chosen, i + 1);
        assert(more == some.push(i as usize));
        assert(more[k + 1] == all[k + 1]);
    }
}

/// What it takes to start a segment, and that it is enough. Segments start at sync samples
/// that lie far enough from the start of the segment before, and no segment holds, past its
/// first sample, a sync sample for which `far_enough` can only answer that it does. Neither
/// the sizes nor the places nor the composition offsets of samples have a say in it.
#[verifier::rlimit(40)]
pub proof fn law_cuts_are_sound_and_complete<F: Fn(u64, u64) -> bool>(
    far_enough: F,
    samples: Seq<Sample>,
    chosen: Seq<bool>,
    starts: Seq<usize>,
    times: Seq<u64>,
)
    requires
        0 < samples.len() <= usize::MAX,
        chosen_by(far_enough, samples, chosen),
        starts == cut_samples(chosen, samples.len() as int),
        times == cut_times(samples, chosen, samples.len() as int),
    ensures
        starts.len() == times.len() > 0,
        starts[0] == 0,
        times[0] == 0,
        forall|k: int|
            0 < k < starts.len() ==> {
                let start = #[trigger] starts[k] as int;
                &&& starts[k - 1] < start < samples.len()
                &&& samples[start].is_sync
                &&& times[k] == samples[start].dts
                &&& call_ensures(far_enough, (times[k - 1], samples[start].dts), true)
            },
        forall|k: int, i: int|
            0 <= k < starts.len() && starts[k] < i < samples.len() && (k + 1 < starts.len() ==> i
                < starts[k + 1]) && (#[trigger] samples[i]).is_sync ==> call_ensures(
                far_enough,
                (#[trigger] times[k], samples[i].dts),
                false,
            ),
{
    let n = samples.len() as int;
    assert(!chosen[0]);
    lemma_cut_lengths(samples, chosen, n);
    lemma_cuts_prefix(samples, chosen, 0, n);
    assert(cut_times(samples, chosen, 0)[0] == 0);
    lemma_cut_samples(chosen, n);
    assert forall|k: int| 0 < k < starts.len() implies ({
        let start = #[trigger] starts[k] as int;
        &&& starts[k - 1] < start < samples.len()
        &&& samples[start].is_sync
        &&& times[k] == samples[start].dts
        &&& call_ensures(far_enough, (times[k - 1], samples[start].dts), true)
    }) by {
        let start = starts[k] as int;
        lemma_cut_time(samples, chosen, n, k);
        lemma_between_cuts(samples, chosen, k - 1, start);
        assert(chosen[start]);
    }
    assert forall|k: int, i: int|
        0 <= k < starts.len() && starts[k] < i < samples.len() && (k + 1 < starts.len() ==> i
            < starts[k + 1]) && (#[trigger] samples[i]).is_sync implies call_ensures(
        far_enough,
        (#[trigger] times[k], samples[i].dts),
        false,
    ) by {
        lemma_between_cuts(samples, chosen, k, i);
        assert(!chosen[i]);
    }
}

/// Where segment `k` starts if its run of the reference track starts at sample `start`: at
/// the decode time of that sample, and the first segment at 0.
pub open spec fn start_time(samples: Seq<Sample>, k: int, start: int) -> u64 {
    if k == 0 {
        0
    } else {
        samples[start].dts
    }
}

proof fn lemma_reference_run<
    F: Fn(u64, u64) -> bool,
    G: Fn(u64, u32, u32) -> u64,
    H: Fn(u64, Option<u64>) -> Length,
>(
    m: Mp4View,
    far_enough: F,
    tick: G,
    length: H,
    chosen: Seq<bool>,
    ticks: Seq<Seq<u64>>,
    bounds: Seq<Seq<usize>>,
    segments: Seq<SegmentView>,
    k: int,
    j: int,
)
    requires
        is_plan(m, far_enough, tick, length, chosen, ticks, bounds, segments),
        0 < m.tracks.len() <= usize::MAX,
        0 < m.tracks[reference(m.tracks)].samples.len() <= usize::MAX,
        0 <= k < segments.len(),
        0 <= j < segments[k].runs.len(),
        segments[k].runs[j].0 == reference(m.tracks),
    ensures
        ({
            let samples = m.tracks[reference(m.tracks)].samples;
            let starts = cut_samples(chosen, samples.len() as int);
            let times = cut_times(samples, chosen, samples.len() as int);
            let range = segments[k].runs[j].1;
            &&& starts.len() == times.len() == segments.len()
            &&& range.start == starts[k] < samples.len()
            &&& range.end == if k + 1 < starts.len() {
                starts[k + 1] as int
            } else {
                samples.len() as int
            }
            &&& times[k] == start_time(samples, k, range.start as int)
        }),
{
    lemma_reference(m.tracks);
    let lead = reference(m.tracks);
    let samples = m.tracks[lead].samples;
    let n = samples.len() as int;
    let starts = cut_samples(chosen, n);
    let times = cut_times(samples, chosen, n);
    assert(is_cut_at(m, tick, chosen, lead, ticks[lead], bounds[lead]));
    law_cuts_are_sound_and_complete(far_enough, samples, chosen, starts, times);
    lemma_run_of(bounds, k, bounds.len() as int, j);
    if k > 0 {
        assert(starts[k] < n);
    }
    if k + 1 < starts.len() {
        assert(starts[k + 1] < n);
    }
}

/// No segment of a plan holds, past its first sample of the reference track, a sync sample
/// that is far enough from the segment's start: `far_enough` may answer `false` for it.
pub proof fn law_no_segment_runs_past_a_keyframe<
    F: Fn(u64, u64) -> bool,
    G: Fn(u64, u32, u32) -> u64,
    H: Fn(u64, Option<u64>) -> Length,
>(
    m: Mp4View,
    far_enough: F,
    tick: G,
    length: H,
    chosen: Seq<bool>,
    ticks: Seq<Seq<u64>>,
    bounds: Seq<Seq<usize>>,
    segments: Seq<SegmentView>,
    k: int,
    j: int,
    i: int,
)
    requires
        is_plan(m, far_enough, tick, length, chosen, ticks, bounds, segments),
        0 < m.tracks.len() <= usize::MAX,
        0 < m.tracks[reference(m.tracks)].samples.len() <= usize::MAX,
        0 <= k < segments.len(),
        0 <= j < segments[k].runs.len(),
        segments[k].runs[j].0 == reference(m.tracks),
        segments[k].runs[j].1.start < i < segments[k].runs[j].1.end,
        m.tracks[reference(m.tracks)].samples[i].is_sync,
    ensures
        ({
            let samples = m.tracks[reference(m.tracks)].samples;
            let start = segments[k].runs[j].1.start as int;
            call_ensures(far_enough, (start_time(samples, k, start), samples[i].dts), false)
        }),
{
    let samples = m.tracks[reference(m.tracks)].samples;
    let n = samples.len() as int;
    let starts = cut_samples(chosen, n);
    let times = cut_times(samples, chosen, n);
    lemma_reference_run(m, far_enough, tick, length, chosen, ticks, bounds, segments, k, j);
    law_cuts_are_sound_and_complete(far_enough, samples, chosen, starts, times);
    assert(samples[i].is_sync && times[k] == start_time(samples, k, starts[k] as int));
}

/// Consecutive segments: the later one starts, at a sync sample of the reference track,
/// where the earlier one ends, `far_enough` has said that this is far enough from the start
/// of the earlier one, and the earlier one is as long as `length` measures between the two.
pub proof fn law_segments_follow_each_other<
    F: Fn(u64, u64) -> bool,
    G: Fn(u64, u32, u32) -> u64,
    H: Fn(u64, Option<u64>) -> Length,
>(
    m: Mp4View,
    far_enough: F,
    tick: G,
    length: H,
    chosen: Seq<bool>,
    ticks: Seq<Seq<u64>>,
    bounds: Seq<Seq<usize>>,
    segments: Seq<SegmentView>,
    k: int,
    j: int,
    next: int,
)
    requires
        is_plan(m, far_enough, tick, length, chosen, ticks, bounds, segments),
        0 < m.tracks.len() <= usize::MAX,
        0 < m.tracks[reference(m.tracks)].samples.len() <= usize::MAX,
        0 <= k < segments.len() - 1,
        0 <= j < segments[k].runs.len(),
        segments[k].runs[j].0 == reference(m.tracks),
        0 <= next < segments[k + 1].runs.len(),
        segments[k + 1].runs[next].0 == reference(m.tracks),
    ensures
        ({
            let samples = m.tracks[reference(m.tracks)].samples;
            let from = segments[k].runs[j].1.start as int;
            let to = segments[k + 1].runs[next].1.start as int;
            let start = start_time(samples, k, from);
            &&& from < to < samples.len()
            &&& segments[k].runs[j].1.end == to
            &&& samples[to].is_sync
            &&& call_ensures(far_enough, (start, samples[to].dts), true)
            &&& call_ensures(length, (start, Some(samples[to].dts)), segments[k].duration)
        }),
{
    let samples = m.tracks[reference(m.tracks)].samples;
    let n = samples.len() as int;
    let starts = cut_samples(chosen, n);
    let times = cut_times(samples, chosen, n);
    lemma_reference_run(m, far_enough, tick, length, chosen, ticks, bounds, segments, k, j);
    lemma_reference_run(m, far_enough, tick, length, chosen, ticks, bounds, segments, k + 1, next);
    law_cuts_are_sound_and_complete(far_enough, samples, chosen, starts, times);
    assert(samples[starts[k + 1] as int].is_sync);
    assert(segments[k].duration == segments[k].duration);
}

/// The last segment holds the reference track to its end, and is as long as `length`
/// measures to the end of the movie.
pub proof fn law_last_segment_ends_the_movie<
    F: Fn(u64, u64) -> bool,
    G: Fn(u64, u32, u32) -> u64,
    H: Fn(u64, Option<u64>) -> Length,
>(
    m: Mp4View,
    far_enough: F,
    tick: G,
    length: H,
    chosen: Seq<bool>,
    ticks: Seq<Seq<u64>>,
    bounds: Seq<Seq<usize>>,
    segments: Seq<SegmentView>,
    j: int,
)
    requires
        is_plan(m, far_enough, tick, length, chosen, ticks, bounds, segments),
        0 < m.tracks.len() <= usize::MAX,
        0 < m.tracks[reference(m.tracks)].samples.len() <= usize::MAX,
        0 <= j < segments.last().runs.len(),
        segments.last().runs[j].0 == reference(m.tracks),
    ensures
        ({
            let samples = m.tracks[reference(m.tracks)].samples;
            let range = segments.last().runs[j].1;
            let start = start_time(samples, segments.len() - 1, range.start as int);
            &&& range.end == samples.len()
            &&& call_ensures(length, (start, None), segments.last().duration)
        }),
{
    let samples = m.tracks[reference(m.tracks)].samples;
    let n = samples.len() as int;
    let k = segments.len() - 1;
    lemma_cut_lengths(samples, chosen, n);
    lemma_reference_run(m, far_enough, tick, length, chosen, ticks, bounds, segments, k, j);
    assert(segments[k].duration == segments.last().duration);
}

/// A track other than the reference track is cut where `tick` puts the start of the segment
/// in its own timescale: what it schedules in a segment is decoded then or later, and what
/// comes before is decoded earlier, as long as its samples are in decode order.
pub proof fn law_runs_start_at_the_same_time<
    F: Fn(u64, u64) -> bool,
    G: Fn(u64, u32, u32) -> u64,
    H: Fn(u64, Option<u64>) -> Length,
>(
    m: Mp4View,
    far_enough: F,
    tick: G,
    length: H,
    chosen: Seq<bool>,
    ticks: Seq<Seq<u64>>,
    bounds: Seq<Seq<usize>>,
    segments: Seq<SegmentView>,
    k: int,
    j: int,
    other: int,
)
    requires
        is_plan(m, far_enough, tick, length, chosen, ticks, bounds, segments),
        0 < m.tracks.len() <= usize::MAX,
        0 < m.tracks[reference(m.tracks)].samples.len() <= usize::MAX,
        0 <= k < segments.len(),
        0 <= j < segments[k].runs.len(),
        segments[k].runs[j].0 == reference(m.tracks),
        0 <= other < segments[k].runs.len(),
        segments[k].runs[other].0 != reference(m.tracks),
        in_decode_order(m.tracks[segments[k].runs[other].0 as int].samples),
    ensures
        ({
            let lead = m.tracks[reference(m.tracks)];
            let (t, range) = segments[k].runs[other];
            let track = m.tracks[t as int];
            let start = start_time(lead.samples, k, segments[k].runs[j].1.start as int);
            &&& t < m.tracks.len()
            &&& range.start < range.end <= track.samples.len()
            &&& exists|x: u64| #[trigger]
                call_ensures(tick, (start, lead.timescale, track.timescale), x) && {
                    &&& forall|i: int|
                        0 <= i < range.start ==> (#[trigger] track.samples[i]).dts < x
                    &&& forall|i: int|
                        range.start <= i < track.samples.len() ==> x <= (
                        #[trigger] track.samples[i]).dts
                }
        }),
{
    lemma_reference_run(m, far_enough, tick, length, chosen, ticks, bounds, segments, k, j);
    lemma_run_of(bounds, k, bounds.len() as int, other);
    let t = segments[k].runs[other].0 as int;
    let samples = m.tracks[t].samples;
    let range = segments[k].runs[other].1;
    lemma_bounds_within(m, far_enough, tick, length, chosen, ticks, bounds, segments, t, k + 1);
    assert(is_cut_at(m, tick, chosen, t, ticks[t], bounds[t]));
    let x = ticks[t][k];
    assert(is_bound(samples, x, bounds[t][k]));
    let lead = m.tracks[reference(m.tracks)];
    let start = start_time(lead.samples, k, segments[k].runs[j].1.start as int);
    assert(call_ensures(tick, (start, lead.timescale, m.tracks[t].timescale), x));
    assert forall|i: int| 0 <= i < range.start implies (#[trigger] samples[i]).dts < x by {
        assert(parted_at(samples, x, range.start as int));
    }
    assert forall|i: int| range.start <= i < samples.len() implies x <= (
    #[trigger] samples[i]).dts by {
        assert(parted_at(samples, x, range.start as int));
    }
}

/// A segment lists its runs in track order, at most one for each track, and none without
/// samples.
pub proof fn law_runs_come_in_track_order<
    F: Fn(u64, u64) -> bool,
    G: Fn(u64, u32, u32) -> u64,
    H: Fn(u64, Option<u64>) -> Length,
>(
    m: Mp4View,
    far_enough: F,
    tick: G,
    length: H,
    chosen: Seq<bool>,
    ticks: Seq<Seq<u64>>,
    bounds: Seq<Seq<usize>>,
    segments: Seq<SegmentView>,
    k: int,
)
    requires
        is_plan(m, far_enough, tick, length, chosen, ticks, bounds, segments),
        m.tracks.len() <= usize::MAX,
        0 <= k < segments.len(),
    ensures
        forall|a: int, b: int|
            0 <= a < b < segments[k].runs.len() ==> (#[trigger] segments[k].runs[a]).0 < (
            #[trigger] segments[k].runs[b]).0,
        forall|a: int|
            0 <= a < segments[k].runs.len() ==> (#[trigger] segments[k].runs[a]).0 < m.tracks.len()
                && segments[k].runs[a].1.start < segments[k].runs[a].1.end,
{
    let runs = segments[k].runs;
    lemma_runs_ascend(bounds, k, bounds.len() as int);
    assert forall|a: int| 0 <= a < runs.len() implies (#[trigger] runs[a]).0 < m.tracks.len()
        && runs[a].1.start < runs[a].1.end by {
        lemma_run_of(bounds, k, bounds.len() as int, a);
    }
}

/// Runs come in track order.
pub proof fn lemma_runs_ascend(bounds: Seq<Seq<usize>>, k: int, n: int)
    requires
        0 <= n <= bounds.len() <= usize::MAX,
    ensures
        forall|a: int, b: int|
            0 <= a < b < runs_at(bounds, k, n).len() ==> (#[trigger] runs_at(bounds, k, n)[a]).0 < (
            #[trigger] runs_at(bounds, k, n)[b]).0,
    decreases n,
{
    if n > 0 {
        let before = runs_at(bounds, k, n - 1);
        let runs = runs_at(bounds, k, n);
        lemma_runs_ascend(bounds, k, n - 1);
        assert forall|a: int, b: int| 0 <= a < b < runs.len() implies (#[trigger] runs[a]).0 < (
        #[trigger] runs[b]).0 by {
            lemma_run_of(bounds, k, n - 1, a);
            if b < before.len() {
                assert(before[a].0 < before[b].0);
            }
        }
    }
}

/// The reference track is a video track with none before it, or the first track of a movie
/// without video.
pub proof fn law_first_video_leads(tracks: Seq<TrackView>)
    requires
        tracks.len() > 0,
    ensures
        ({
            let lead = reference(tracks);
            &&& 0 <= lead < tracks.len()
            &&& tracks[lead].kind is Video ==> forall|i: int|
                0 <= i < lead ==> !((#[trigger] tracks[i]).kind is Video)
            &&& !(tracks[lead].kind is Video) ==> lead == 0 && forall|i: int|
                0 <= i < tracks.len() ==> !((#[trigger] tracks[i]).kind is Video)
        }),
{
    lemma_first_video(tracks, 0);
}

/// The first video track from `i` on.
pub proof fn lemma_first_video(tracks: Seq<TrackView>, i: int)
    requires
        0 <= i,
    ensures
        match video_from(tracks, i) {
            Some(v) => i <= v < tracks.len() && tracks[v].kind is Video && forall|a: int|
                i <= a < v ==> !((#[trigger] tracks[a]).kind is Video),
            None => forall|a: int|
                i <= a < tracks.len() ==> !((#[trigger] tracks[a]).kind is Video),
        },
    decreases tracks.len() - i,
{
    if i < tracks.len() {
        lemma_first_video(tracks, i + 1);
    }
}

} // verus!
