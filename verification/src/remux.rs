//! Remuxing one segment: which samples it takes, which parts of the source file they
//! lie in, and the CMAF segment that they make.

use std::ops::Range;

use vstd::arithmetic::div_mod::lemma_add_mod_noop;
use vstd::prelude::*;
use vstd::slice::slice_subrange;

use crate::boxes::{be32, boxes_from, found};
use crate::error::Invalid;
use crate::fmp4::{
    data_len, first_data_offset, init_bytes, init_segment, lemma_data_len_take, low32,
    media_segment, moof_bytes, run_bytes, run_data_len, run_views, segment_bytes, RunView, TrackRun,
    TRAF, TRUN,
};
use crate::hls::Stream;
use crate::mp4::{Mp4, Mp4View, Sample, Track, TrackView};
use crate::plan::{
    is_plan, lemma_bounds_within, lemma_run_of, plan_segments, reference, segment_views, Length,
    SegmentView,
};
use crate::roundtrip::law_data_offsets_point_at_each_run;

verus! {

/// Upper bound on the bytes one segment may pull into memory.
pub const MAX_SEGMENT_BYTES: u64 = 0x800_0000;

/// A part of the source file.
#[derive(Clone, Copy, PartialEq, Eq, Structural, Debug)]
pub struct Span {
    pub start: u64,
    pub len: u64,
}

// --- samples of a segment ------------------------------------------------

/// The samples that `runs` schedule. Runs that name no track, or samples that the
/// track does not have, are dropped.
pub open spec fn runs_of(
    tracks: Seq<TrackView>,
    runs: Seq<(usize, Range<usize>)>,
) -> Seq<RunView>
    decreases runs.len(),
{
    if runs.len() == 0 {
        Seq::empty()
    } else {
        let before = runs_of(tracks, runs.drop_last());
        let (t, range) = runs.last();
        if t < tracks.len() && range.start <= range.end <= tracks[t as int].samples.len() {
            let track = tracks[t as int];
            before.push(
                RunView {
                    track,
                    samples: track.samples.subrange(range.start as int, range.end as int),
                },
            )
        } else {
            before
        }
    }
}

/// Looks up the samples that `runs` schedule.
pub fn select_runs<'a>(mp4: &'a Mp4, runs: &[(usize, Range<usize>)]) -> (r: Vec<TrackRun<'a>>)
    ensures
        run_views(r@) == runs_of(mp4@.tracks, runs@),
{
    let ghost tracks = mp4@.tracks;
    let mut out: Vec<TrackRun<'a>> = Vec::new();
    let mut i: usize = 0;
    assert(run_views(out@) =~= runs_of(tracks, runs@.take(0)));
    while i < runs.len()
        invariant
            i <= runs@.len(),
            tracks == mp4@.tracks,
            tracks.len() == mp4.tracks@.len(),
            run_views(out@) == runs_of(tracks, runs@.take(i as int)),
        decreases runs@.len() - i,
    {
        assert(runs@.take(i + 1).drop_last() =~= runs@.take(i as int));
        let t: usize = runs[i].0;
        let start: usize = runs[i].1.start;
        let end: usize = runs[i].1.end;
        if t < mp4.tracks.len() {
            let track: &Track = &mp4.tracks[t];
            assert(tracks[t as int] == track@);
            if start <= end && end <= track.samples.len() {
                let samples: &[Sample] = slice_subrange(track.samples.as_slice(), start, end);
                let ghost before = run_views(out@);
                out.push(TrackRun { track, samples });
                assert(run_views(out@) =~= before.push(RunView { track: track@, samples: samples@ }));
            }
        }
        i = i + 1;
    }
    assert(runs@.take(i as int) =~= runs@);
    out
}

// --- where they lie ------------------------------------------------------

/// The parts of the file in which `samples` lie. Samples that lie back to back share
/// one: tracks are interleaved on disk, so a run is a handful of contiguous spans
/// rather than one.
pub open spec fn merged(samples: Seq<Sample>) -> Seq<Span>
    decreases samples.len(),
{
    if samples.len() == 0 {
        Seq::empty()
    } else {
        let before = merged(samples.drop_last());
        let last = samples.last();
        if before.len() > 0 && before.last().start + before.last().len == last.offset {
            before.drop_last().push(
                Span {
                    start: before.last().start,
                    len: (before.last().len + last.size) as u64,
                },
            )
        } else {
            before.push(Span { start: last.offset, len: last.size as u64 })
        }
    }
}

/// The parts of the file in which the samples of `runs` lie, run by run.
pub open spec fn all_spans(runs: Seq<RunView>) -> Seq<Span>
    decreases runs.len(),
{
    if runs.len() == 0 {
        Seq::empty()
    } else {
        all_spans(runs.drop_last()) + merged(runs.last().samples)
    }
}

/// The bytes that `spans` hold together.
pub open spec fn spans_len(spans: Seq<Span>) -> nat
    decreases spans.len(),
{
    if spans.len() == 0 {
        0
    } else {
        spans_len(spans.drop_last()) + spans.last().len as nat
    }
}

proof fn lemma_merged_len(samples: Seq<Sample>)
    requires
        run_bytes(samples) <= u64::MAX,
    ensures
        spans_len(merged(samples)) == run_bytes(samples),
    decreases samples.len(),
{
    if samples.len() > 0 {
        lemma_merged_len(samples.drop_last());
        let before = merged(samples.drop_last());
        let now = merged(samples);
        if before.len() > 0 {
            assert(now.drop_last() =~= before.drop_last() || now.drop_last() =~= before);
        } else {
            assert(now.drop_last() =~= before);
        }
    }
}

proof fn lemma_run_bytes_take(samples: Seq<Sample>, i: int)
    requires
        0 <= i < samples.len(),
    ensures
        run_bytes(samples.take(i + 1)) == run_bytes(samples.take(i)) + samples[i].size,
        run_bytes(samples.take(i + 1)) <= run_bytes(samples),
    decreases samples.len(),
{
    assert(samples.take(i + 1).drop_last() =~= samples.take(i));
    if i + 1 < samples.len() {
        assert(samples.drop_last().take(i + 1) =~= samples.take(i + 1));
        lemma_run_bytes_take(samples.drop_last(), i);
    } else {
        assert(samples.take(i + 1) =~= samples);
    }
}

/// Appends the parts of the file in which `samples` lie, merging adjacent samples
/// into a single read.
pub fn read_samples(samples: &[Sample], out: &mut Vec<Span>)
    requires
        run_bytes(samples@) <= u64::MAX,
    ensures
        final(out)@ == old(out)@ + merged(samples@),
{
    let ghost first = out@;
    let mut span: Option<Span> = None;
    let mut i: usize = 0;
    assert(out@ =~= first + merged(samples@.take(0)));
    while i < samples.len()
        invariant
            run_bytes(samples@) <= u64::MAX,
            i <= samples@.len(),
            match span {
                None => merged(samples@.take(i as int)).len() == 0 && out@ == first,
                Some(s) => {
                    &&& merged(samples@.take(i as int)).len() > 0
                    &&& s == merged(samples@.take(i as int)).last()
                    &&& out@ == first + merged(samples@.take(i as int)).drop_last()
                },
            },
        decreases samples@.len() - i,
    {
        let sample: Sample = samples[i];
        let ghost before = merged(samples@.take(i as int));
        let ghost now = merged(samples@.take(i + 1));
        proof {
            assert(samples@.take(i + 1).drop_last() =~= samples@.take(i as int));
            lemma_run_bytes_take(samples@, i as int);
            lemma_merged_len(samples@.take(i as int));
        }
        let fresh: Span = Span { start: sample.offset, len: sample.size as u64 };
        span = match span {
            Some(s) => if s.start <= sample.offset && sample.offset - s.start == s.len {
                assert(now.drop_last() =~= before.drop_last());
                Some(Span { start: s.start, len: s.len + sample.size as u64 })
            } else {
                out.push(s);
                assert(now.drop_last() =~= before);
                assert(out@ =~= first + before);
                Some(fresh)
            },
            None => {
                assert(now.drop_last() =~= before);
                assert(out@ =~= first + before);
                Some(fresh)
            },
        };
        i = i + 1;
    }
    assert(samples@.take(i as int) =~= samples@);
    if let Some(s) = span {
        out.push(s);
    }
    assert(out@ =~= first + merged(samples@));
}

/// Whether every span that holds anything lies in a file of `len` bytes.
pub open spec fn fit_in(spans: Seq<Span>, len: int) -> bool {
    forall|i: int|
        0 <= i < spans.len() ==> (#[trigger] spans[i]).len == 0 || spans[i].start + spans[i].len
            <= len
}

/// Checks that a file of `len` bytes holds what `spans` are to be read from. A file that
/// does not is cut off.
pub fn check_spans(spans: &[Span], len: u64) -> (r: Result<(), Invalid>)
    ensures
        r == (if fit_in(spans@, len as int) {
            Ok::<(), Invalid>(())
        } else {
            Err(Invalid::TruncatedBox)
        }),
{
    let mut i: usize = 0;
    while i < spans.len()
        invariant
            i <= spans@.len(),
            forall|k: int|
                0 <= k < i ==> (#[trigger] spans@[k]).len == 0 || spans@[k].start + spans@[k].len
                    <= len,
        decreases spans@.len() - i,
    {
        let span: Span = spans[i];
        if span.len > 0 && (span.start > len || span.len > len - span.start) {
            assert(!(spans@[i as int].len == 0 || spans@[i as int].start + spans@[i as int].len
                <= len));
            return Err(Invalid::TruncatedBox);
        }
        i = i + 1;
    }
    Ok(())
}

/// Adds up the sample bytes of `runs`, if they stay within `max`.
fn total_within(runs: &[TrackRun<'_>], max: u64) -> (r: bool)
    ensures
        r == (data_len(run_views(runs@)) <= max),
{
    let ghost views = run_views(runs@);
    let mut total: u64 = 0;
    let mut i: usize = 0;
    while i < runs.len()
        invariant
            i <= runs@.len() == views.len(),
            views == run_views(runs@),
            total == data_len(views.take(i as int)),
            total <= max,
        decreases runs@.len() - i,
    {
        assert(views.take(i + 1).drop_last() =~= views.take(i as int));
        assert(views[i as int].samples == runs@[i as int].samples@);
        let samples: &[Sample] = runs[i].samples;
        let mut j: usize = 0;
        assert(samples@.take(0) =~= Seq::empty());
        while j < samples.len()
            invariant
                i < runs@.len() == views.len(),
                views == run_views(runs@),
                samples@ == views[i as int].samples,
                j <= samples@.len(),
                total == data_len(views.take(i as int)) + run_bytes(samples@.take(j as int)),
                total <= max,
            decreases samples@.len() - j,
        {
            proof {
                lemma_run_bytes_take(samples@, j as int);
                lemma_data_len_take(views, i as int);
            }
            let size: u64 = samples[j].size as u64;
            if size > max - total {
                return false;
            }
            total = total + size;
            j = j + 1;
        }
        assert(samples@.take(j as int) =~= samples@);
        i = i + 1;
    }
    assert(views.take(i as int) =~= views);
    true
}

/// Sample bytes of all tracks.
pub open spec fn movie_bytes(tracks: Seq<TrackView>) -> nat
    decreases tracks.len(),
{
    if tracks.len() == 0 {
        0
    } else {
        movie_bytes(tracks.drop_last()) + run_bytes(tracks.last().samples)
    }
}

impl Stream {
    /// Packages a movie.
    pub fn new<
        F: Fn(u64, u64) -> bool,
        G: Fn(u64, u32, u32) -> u64,
        H: Fn(u64, Option<u64>) -> Length,
    >(mp4: Mp4, far_enough: F, tick: G, length: H) -> (r: Stream)
        requires
            mp4@.tracks.len() > 0,
            forall|last: u64, dts: u64| call_requires(far_enough, (last, dts)),
            forall|cut: u64, from: u32, to: u32| call_requires(tick, (cut, from, to)),
            forall|from: u64, to: Option<u64>| call_requires(length, (from, to)),
        ensures
            r@.mp4 == mp4@,
            r@.init == init_bytes(mp4@),
            exists|chosen: Seq<bool>, ticks: Seq<Seq<u64>>, bounds: Seq<Seq<usize>>| #[trigger]
                is_plan(mp4@, far_enough, tick, length, chosen, ticks, bounds, r@.segments),
    {
        let init: Vec<u8> = init_segment(&mp4);
        let segments = plan_segments(&mp4, far_enough, tick, length);
        let ghost movie = mp4@;
        let stream: Stream = Stream { mp4, init, segments };
        proof {
            let (chosen, ticks, bounds) = choose|
                chosen: Seq<bool>,
                ticks: Seq<Seq<u64>>,
                bounds: Seq<Seq<usize>>,
            | #[trigger]
                is_plan(
                    movie,
                    far_enough,
                    tick,
                    length,
                    chosen,
                    ticks,
                    bounds,
                    segment_views(segments@),
                );
            assert(is_plan(
                movie,
                far_enough,
                tick,
                length,
                chosen,
                ticks,
                bounds,
                stream@.segments,
            ));
        }
        stream
    }

    /// Sample bytes of all tracks, modulo 2^64, for `BANDWIDTH`.
    pub fn total_bytes(&self) -> (r: u64)
        ensures
            r == movie_bytes(self@.mp4.tracks) % 0x1_0000_0000_0000_0000,
    {
        let ghost tracks = self@.mp4.tracks;
        let mut total: u64 = 0;
        let mut i: usize = 0;
        while i < self.mp4.tracks.len()
            invariant
                i <= self.mp4.tracks@.len() == tracks.len(),
                tracks == self@.mp4.tracks,
                total == movie_bytes(tracks.take(i as int)) % 0x1_0000_0000_0000_0000,
            decreases self.mp4.tracks@.len() - i,
        {
            let len: u64 = run_data_len(self.mp4.tracks[i].samples.as_slice());
            proof {
                assert(tracks.take(i + 1).drop_last() =~= tracks.take(i as int));
                assert(tracks[i as int] == self.mp4.tracks@[i as int]@);
                lemma_add_mod_noop(
                    movie_bytes(tracks.take(i as int)) as int,
                    run_bytes(tracks[i as int].samples) as int,
                    0x1_0000_0000_0000_0000,
                );
            }
            total = total.wrapping_add(len);
            i = i + 1;
        }
        assert(tracks.take(i as int) =~= tracks);
        total
    }

    /// The parts of the source file that segment `index` is made of, in order, or
    /// `None` where there is no such segment.
    pub fn segment_spans(&self, index: usize) -> (r: Result<Option<Vec<Span>>, Invalid>)
        ensures
            match r {
                Ok(None) => index >= self@.segments.len(),
                Ok(Some(spans)) => {
                    let runs = runs_of(self@.mp4.tracks, self@.segments[index as int].runs);
                    &&& index < self@.segments.len()
                    &&& data_len(runs) <= MAX_SEGMENT_BYTES
                    &&& spans@ == all_spans(runs)
                },
                Err(e) => {
                    let runs = runs_of(self@.mp4.tracks, self@.segments[index as int].runs);
                    &&& index < self@.segments.len()
                    &&& data_len(runs) > MAX_SEGMENT_BYTES
                    &&& e == Invalid::SegmentTooLarge
                },
            },
    {
        if index >= self.segments.len() {
            return Ok(None);
        }
        assert(self@.segments[index as int] == self.segments@[index as int]@);
        let runs: Vec<TrackRun<'_>> = select_runs(&self.mp4, self.segments[index].runs.as_slice());
        if !total_within(runs.as_slice(), MAX_SEGMENT_BYTES) {
            return Err(Invalid::SegmentTooLarge);
        }
        let ghost views = run_views(runs@);
        let mut spans: Vec<Span> = Vec::new();
        let mut i: usize = 0;
        assert(spans@ =~= all_spans(views.take(0)));
        while i < runs.len()
            invariant
                i <= runs@.len() == views.len(),
                views == run_views(runs@),
                data_len(views) <= MAX_SEGMENT_BYTES,
                spans@ == all_spans(views.take(i as int)),
            decreases runs@.len() - i,
        {
            proof {
                assert(views.take(i + 1).drop_last() =~= views.take(i as int));
                lemma_data_len_take(views, i as int);
            }
            assert(views[i as int].samples == runs@[i as int].samples@);
            read_samples(runs[i].samples, &mut spans);
            i = i + 1;
        }
        assert(views.take(i as int) =~= views);
        Ok(Some(spans))
    }

    /// Remuxes segment `index` into a standalone CMAF segment. `data` holds what the
    /// parts of the source file that [`Stream::segment_spans`] names hold, one after
    /// the other.
    pub fn segment(&self, index: usize, data: &[u8]) -> (r: Option<Vec<u8>>)
        ensures
            match r {
                None => index >= self@.segments.len(),
                Some(bytes) => {
                    &&& index < self@.segments.len()
                    &&& bytes@ == segment_bytes(
                        low32((index + 1) as nat),
                        runs_of(self@.mp4.tracks, self@.segments[index as int].runs),
                        data@,
                    )
                },
            },
    {
        if index >= self.segments.len() {
            return None;
        }
        assert(self@.segments[index as int] == self.segments@[index as int]@);
        let runs: Vec<TrackRun<'_>> = select_runs(&self.mp4, self.segments[index].runs.as_slice());
        // Sequence numbers are 1-based so that segment 0 is still a valid `moof`.
        let sequence: u32 = ((index as u128 + 1) % 0x1_0000_0000) as u32;
        Some(media_segment(sequence, runs.as_slice(), data))
    }
}

// --- what a remuxed segment promises -------------------------------------

/// The `len` bytes of `file` from `start` on.
pub open spec fn part_of(file: Seq<u8>, start: int, len: int) -> Seq<u8> {
    if len == 0 {
        Seq::empty()
    } else {
        file.subrange(start, start + len)
    }
}

/// The bytes of `file` that `sample` is made of.
pub open spec fn bytes_of(file: Seq<u8>, sample: Sample) -> Seq<u8> {
    part_of(file, sample.offset as int, sample.size as int)
}

/// Whether `samples`, but for empty ones, lie inside `file`.
pub open spec fn lie_in(file: Seq<u8>, samples: Seq<Sample>) -> bool {
    forall|i: int|
        0 <= i < samples.len() ==> (#[trigger] samples[i]).size == 0 || samples[i].offset
            + samples[i].size <= file.len()
}

/// The bytes of `samples`, one after the other.
pub open spec fn sample_bytes(file: Seq<u8>, samples: Seq<Sample>) -> Seq<u8>
    decreases samples.len(),
{
    if samples.len() == 0 {
        Seq::empty()
    } else {
        sample_bytes(file, samples.drop_last()) + bytes_of(file, samples.last())
    }
}

/// The bytes of the samples of `runs`, one after the other.
pub open spec fn run_data(file: Seq<u8>, runs: Seq<RunView>) -> Seq<u8>
    decreases runs.len(),
{
    if runs.len() == 0 {
        Seq::empty()
    } else {
        run_data(file, runs.drop_last()) + sample_bytes(file, runs.last().samples)
    }
}

/// What reading `spans` of `file` gives, one after the other.
pub open spec fn read_spans(file: Seq<u8>, spans: Seq<Span>) -> Seq<u8>
    decreases spans.len(),
{
    if spans.len() == 0 {
        Seq::empty()
    } else {
        read_spans(file, spans.drop_last()) + part_of(
            file,
            spans.last().start as int,
            spans.last().len as int,
        )
    }
}

proof fn lemma_fits(len: int, samples: Seq<Sample>)
    requires
        run_bytes(samples) <= u64::MAX,
        fit_in(merged(samples), len),
    ensures
        forall|i: int|
            0 <= i < samples.len() ==> (#[trigger] samples[i]).size == 0 || samples[i].offset
                + samples[i].size <= len,
    decreases samples.len(),
{
    if samples.len() > 0 {
        let rest = samples.drop_last();
        let last = samples[samples.len() - 1];
        let before = merged(rest);
        let now = merged(samples);
        lemma_span_len(samples);
        let end = now[now.len() - 1];
        assert(end.len == 0 || end.start + end.len <= len);
        assert forall|i: int| 0 <= i < before.len() implies (#[trigger] before[i]).len == 0
            || before[i].start + before[i].len <= len by {
            if i < before.len() - 1 {
                assert(now[i] == before[i]);
            } else if now.len() == before.len() + 1 {
                assert(now[i] == before[i]);
            }
        }
        lemma_fits(len, rest);
        assert forall|i: int| 0 <= i < samples.len() implies (#[trigger] samples[i]).size == 0
            || samples[i].offset + samples[i].size <= len by {
            if i < rest.len() {
                assert(rest[i] == samples[i]);
            }
        }
    }
}

/// The last span is as long as its parts: merging does not overflow.
proof fn lemma_span_len(samples: Seq<Sample>)
    requires
        run_bytes(samples) <= u64::MAX,
        samples.len() > 0,
    ensures
        ({
            let before = merged(samples.drop_last());
            let now = merged(samples);
            let last = samples.last();
            &&& now.len() > 0
            &&& if before.len() > 0 && before.last().start + before.last().len == last.offset {
                &&& now.len() == before.len()
                &&& now.last().start == before.last().start
                &&& now.last().len == before.last().len + last.size
            } else {
                now == before.push(Span { start: last.offset, len: last.size as u64 })
            }
        }),
{
    lemma_merged_len(samples.drop_last());
}

proof fn lemma_merged_reads(file: Seq<u8>, samples: Seq<Sample>)
    requires
        run_bytes(samples) <= u64::MAX,
        fit_in(merged(samples), file.len() as int),
    ensures
        read_spans(file, merged(samples)) == sample_bytes(file, samples),
    decreases samples.len(),
{
    if samples.len() > 0 {
        let rest = samples.drop_last();
        let last = samples[samples.len() - 1];
        let before = merged(rest);
        let now = merged(samples);
        lemma_span_len(samples);
        let end = now[now.len() - 1];
        assert(end.len == 0 || end.start + end.len <= file.len());
        assert forall|i: int| 0 <= i < before.len() implies (#[trigger] before[i]).len == 0
            || before[i].start + before[i].len <= file.len() by {
            if i < before.len() - 1 {
                assert(now[i] == before[i]);
            } else if now.len() == before.len() + 1 {
                assert(now[i] == before[i]);
            }
        }
        lemma_merged_reads(file, rest);
        if before.len() > 0 && before.last().start + before.last().len == last.offset {
            let span = before.last();
            assert(now.drop_last() =~= before.drop_last());
            let old_part = part_of(file, span.start as int, span.len as int);
            let new_part = part_of(file, span.start as int, span.len + last.size);
            assert(new_part =~= old_part + bytes_of(file, last));
            assert(read_spans(file, now) =~= sample_bytes(file, samples));
        } else {
            assert(now.drop_last() =~= before);
        }
    }
}

proof fn lemma_run_fits(len: int, runs: Seq<RunView>)
    requires
        runs.len() > 0,
        fit_in(all_spans(runs), len),
    ensures
        fit_in(all_spans(runs.drop_last()), len),
        fit_in(merged(runs.last().samples), len),
{
    let a = all_spans(runs.drop_last());
    let b = merged(runs.last().samples);
    assert forall|i: int| 0 <= i < a.len() implies (#[trigger] a[i]).len == 0 || a[i].start
        + a[i].len <= len by {
        assert((a + b)[i] == a[i]);
    }
    assert forall|i: int| 0 <= i < b.len() implies (#[trigger] b[i]).len == 0 || b[i].start
        + b[i].len <= len by {
        assert((a + b)[a.len() + i] == b[i]);
    }
}

/// Where a file holds the spans of a segment, it holds every sample of it.
pub proof fn law_spans_hold_every_sample(len: int, runs: Seq<RunView>, k: int)
    requires
        data_len(runs) <= u64::MAX,
        fit_in(all_spans(runs), len),
        0 <= k < runs.len(),
    ensures
        forall|i: int|
            0 <= i < runs[k].samples.len() ==> (#[trigger] runs[k].samples[i]).size == 0
                || runs[k].samples[i].offset + runs[k].samples[i].size <= len,
    decreases runs.len(),
{
    lemma_run_fits(len, runs);
    if k < runs.len() - 1 {
        assert(runs.drop_last()[k] == runs[k]);
        law_spans_hold_every_sample(len, runs.drop_last(), k);
    } else {
        lemma_fits(len, runs[k].samples);
    }
}

proof fn lemma_read_append(file: Seq<u8>, a: Seq<Span>, b: Seq<Span>)
    ensures
        read_spans(file, a + b) == read_spans(file, a) + read_spans(file, b),
    decreases b.len(),
{
    if b.len() == 0 {
        assert(a + b =~= a);
        assert(read_spans(file, a) + read_spans(file, b) =~= read_spans(file, a));
    } else {
        lemma_read_append(file, a, b.drop_last());
        assert((a + b).drop_last() =~= a + b.drop_last());
        assert(read_spans(file, a + b) =~= read_spans(file, a) + read_spans(file, b));
    }
}

/// Reading the parts of the file that [`Stream::segment_spans`] names, one after the
/// other, gives the bytes of every sample of every run, in order.
pub proof fn law_spans_read_every_sample(file: Seq<u8>, runs: Seq<RunView>)
    requires
        data_len(runs) <= u64::MAX,
        fit_in(all_spans(runs), file.len() as int),
    ensures
        read_spans(file, all_spans(runs)) == run_data(file, runs),
    decreases runs.len(),
{
    if runs.len() > 0 {
        lemma_run_fits(file.len() as int, runs);
        law_spans_read_every_sample(file, runs.drop_last());
        lemma_merged_reads(file, runs.last().samples);
        lemma_read_append(file, all_spans(runs.drop_last()), merged(runs.last().samples));
    }
}

proof fn lemma_sample_bytes(file: Seq<u8>, samples: Seq<Sample>, j: int)
    requires
        lie_in(file, samples),
        0 <= j < samples.len(),
    ensures
        sample_bytes(file, samples).len() == run_bytes(samples),
        run_bytes(samples.take(j)) + samples[j].size <= run_bytes(samples),
        sample_bytes(file, samples).subrange(
            run_bytes(samples.take(j)) as int,
            run_bytes(samples.take(j)) + samples[j].size,
        ) == bytes_of(file, samples[j]),
    decreases samples.len(),
{
    let rest = samples.drop_last();
    let last = samples[samples.len() - 1];
    lemma_sample_bytes_len(file, samples);
    lemma_sample_bytes_len(file, rest);
    if j < rest.len() {
        lemma_sample_bytes(file, rest, j);
        assert(rest.take(j) =~= samples.take(j));
        let from = run_bytes(samples.take(j)) as int;
        let to = from + samples[j].size;
        assert(sample_bytes(file, samples).subrange(from, to) =~= sample_bytes(
            file,
            rest,
        ).subrange(from, to));
    } else {
        assert(samples.take(j) =~= rest);
        assert(sample_bytes(file, samples).subrange(
            run_bytes(rest) as int,
            run_bytes(rest) + last.size,
        ) =~= bytes_of(file, last));
    }
}

proof fn lemma_sample_bytes_len(file: Seq<u8>, samples: Seq<Sample>)
    requires
        lie_in(file, samples),
    ensures
        sample_bytes(file, samples).len() == run_bytes(samples),
    decreases samples.len(),
{
    if samples.len() > 0 {
        assert(samples.last() == samples[samples.len() - 1]);
        lemma_sample_bytes_len(file, samples.drop_last());
    }
}

proof fn lemma_run_data(file: Seq<u8>, runs: Seq<RunView>, i: int)
    requires
        forall|k: int| 0 <= k < runs.len() ==> lie_in(file, (#[trigger] runs[k]).samples),
        0 <= i < runs.len(),
    ensures
        run_data(file, runs).len() == data_len(runs),
        run_data(file, runs).subrange(
            data_len(runs.take(i)) as int,
            data_len(runs.take(i + 1)) as int,
        ) == sample_bytes(file, runs[i].samples),
    decreases runs.len(),
{
    let rest = runs.drop_last();
    assert forall|k: int| 0 <= k < rest.len() implies lie_in(file, (#[trigger] rest[k]).samples) by {
        assert(rest[k] == runs[k]);
    }
    lemma_run_data_len(file, runs);
    lemma_run_data_len(file, rest);
    lemma_data_len_take(runs, i);
    lemma_sample_bytes_len(file, runs[i].samples);
    let from = data_len(runs.take(i)) as int;
    let to = data_len(runs.take(i + 1)) as int;
    if i < rest.len() {
        lemma_run_data(file, rest, i);
        lemma_data_len_take(rest, i);
        assert(rest.take(i) =~= runs.take(i));
        assert(rest.take(i + 1) =~= runs.take(i + 1));
        assert(run_data(file, runs).subrange(from, to) =~= run_data(file, rest).subrange(from, to));
    } else {
        assert(runs.take(i) =~= rest);
        assert(run_data(file, runs).subrange(from, to) =~= sample_bytes(file, runs[i].samples));
    }
}

proof fn lemma_run_data_len(file: Seq<u8>, runs: Seq<RunView>)
    requires
        forall|k: int| 0 <= k < runs.len() ==> lie_in(file, (#[trigger] runs[k]).samples),
    ensures
        run_data(file, runs).len() == data_len(runs),
    decreases runs.len(),
{
    if runs.len() > 0 {
        let rest = runs.drop_last();
        assert forall|k: int| 0 <= k < rest.len() implies lie_in(
            file,
            (#[trigger] rest[k]).samples,
        ) by {
            assert(rest[k] == runs[k]);
        }
        lemma_run_data_len(file, rest);
        lemma_sample_bytes_len(file, runs[runs.len() - 1].samples);
    }
}

/// A segment that is built from what its spans of the source file hold carries the
/// samples as they are: sample `j` of run `i` lies where the `trun` box of that run
/// says, behind the samples before it, and holds the bytes that it has in the file.
#[verifier::rlimit(40)]
pub proof fn law_segment_carries_the_samples(
    file: Seq<u8>,
    sequence: u32,
    runs: Seq<RunView>,
    i: int,
    j: int,
)
    requires
        fit_in(all_spans(runs), file.len() as int),
        first_data_offset(runs) + data_len(runs) <= u32::MAX,
        0 <= i < runs.len(),
        0 <= j < runs[i].samples.len(),
    ensures
        ({
            let segment = segment_bytes(sequence, runs, read_spans(file, all_spans(runs)));
            let trafs = boxes_from(moof_bytes(sequence, runs), 0, TRAF);
            let samples = runs[i].samples;
            &&& trafs.len() == runs.len()
            &&& found(trafs[i], TRUN) matches Some(trun) && {
                let at = 28 + be32(trun, 8) + run_bytes(samples.take(j));
                &&& at + samples[j].size <= segment.len()
                &&& segment.subrange(at, at + samples[j].size) == bytes_of(file, samples[j])
            }
        }),
{
    let data = run_data(file, runs);
    let samples = runs[i].samples;
    assert forall|k: int| 0 <= k < runs.len() implies lie_in(file, (#[trigger] runs[k]).samples) by {
        law_spans_hold_every_sample(file.len() as int, runs, k);
    }
    law_spans_read_every_sample(file, runs);
    lemma_run_data(file, runs, i);
    law_data_offsets_point_at_each_run(sequence, runs, data, i);
    lemma_data_len_take(runs, i);
    lemma_sample_bytes(file, samples, j);
    let segment = segment_bytes(sequence, runs, data);
    let trun = found(boxes_from(moof_bytes(sequence, runs), 0, TRAF)[i], TRUN)->0;
    let start = 28 + be32(trun, 8);
    let from = run_bytes(samples.take(j)) as int;
    let to = from + samples[j].size;
    assert(segment.subrange(start + from, start + to) =~= segment.subrange(
        start,
        start + run_bytes(samples),
    ).subrange(from, to));
}

/// Whether `run` names a track and samples that the track has.
pub open spec fn names_samples(tracks: Seq<TrackView>, run: (usize, Range<usize>)) -> bool {
    run.0 < tracks.len() && run.1.start <= run.1.end <= tracks[run.0 as int].samples.len()
}

proof fn lemma_no_run_dropped(tracks: Seq<TrackView>, runs: Seq<(usize, Range<usize>)>)
    requires
        forall|i: int| 0 <= i < runs.len() ==> names_samples(tracks, #[trigger] runs[i]),
    ensures
        runs_of(tracks, runs).len() == runs.len(),
        forall|i: int|
            #![trigger runs_of(tracks, runs)[i]]
            0 <= i < runs.len() ==> runs_of(tracks, runs)[i] == (RunView {
                track: tracks[runs[i].0 as int],
                samples: tracks[runs[i].0 as int].samples.subrange(
                    runs[i].1.start as int,
                    runs[i].1.end as int,
                ),
            }),
    decreases runs.len(),
{
    if runs.len() > 0 {
        let rest = runs.drop_last();
        assert forall|i: int| 0 <= i < rest.len() implies names_samples(tracks, #[trigger] rest[i])
            by {
            assert(rest[i] == runs[i]);
        }
        lemma_no_run_dropped(tracks, rest);
        assert(names_samples(tracks, runs[runs.len() - 1]));
        assert forall|i: int|
            #![trigger runs_of(tracks, runs)[i]]
            0 <= i < runs.len() implies runs_of(tracks, runs)[i] == (RunView {
            track: tracks[runs[i].0 as int],
            samples: tracks[runs[i].0 as int].samples.subrange(
                runs[i].1.start as int,
                runs[i].1.end as int,
            ),
        }) by {
            if i < rest.len() {
                assert(runs_of(tracks, runs)[i] == runs_of(tracks, rest)[i]);
                assert(rest[i] == runs[i]);
            }
        }
    }
}

/// Remuxing drops nothing of a plan: the segment holds one run for each that was planned,
/// in order, with the samples of the planned range.
pub proof fn law_planned_runs_are_remuxed<
    F: Fn(u64, u64) -> bool,
    G: Fn(u64, u32, u32) -> u64,
    H: Fn(u64, Option<u64>) -> Length,
>(
    m: Mp4View,
    far_enough: F,
    tick: G,
    length: H,
    chosen: Seq<bool>,
    ticks: Seq<Seq<u64>>,
    bounds: Seq<Seq<usize>>,
    segments: Seq<SegmentView>,
    k: int,
    j: int,
)
    requires
        is_plan(m, far_enough, tick, length, chosen, ticks, bounds, segments),
        m.tracks.len() <= usize::MAX,
        m.tracks[reference(m.tracks)].samples.len() <= usize::MAX,
        0 <= k < segments.len(),
        0 <= j < segments[k].runs.len(),
    ensures
        ({
            let (t, range) = segments[k].runs[j];
            let runs = runs_of(m.tracks, segments[k].runs);
            &&& t < m.tracks.len()
            &&& range.start < range.end <= m.tracks[t as int].samples.len()
            &&& runs.len() == segments[k].runs.len()
            &&& runs[j] == (RunView {
                track: m.tracks[t as int],
                samples: m.tracks[t as int].samples.subrange(range.start as int, range.end as int),
            })
        }),
{
    let runs = segments[k].runs;
    assert forall|i: int| 0 <= i < runs.len() implies names_samples(m.tracks, #[trigger] runs[i])
        && runs[i].1.start < runs[i].1.end by {
        lemma_run_of(bounds, k, bounds.len() as int, i);
        let t = runs[i].0 as int;
        lemma_bounds_within(m, far_enough, tick, length, chosen, ticks, bounds, segments, t, k + 1);
    }
    lemma_no_run_dropped(m.tracks, runs);
    assert(names_samples(m.tracks, runs[j]));
    assert(runs_of(m.tracks, runs)[j].track == m.tracks[runs[j].0 as int]);
}

/// Runs are taken one by one, in order: one that names a track and samples that it has
/// gives those samples, any other gives nothing.
pub proof fn law_runs_are_taken_one_by_one(
    tracks: Seq<TrackView>,
    a: Seq<(usize, Range<usize>)>,
    b: Seq<(usize, Range<usize>)>,
    run: (usize, Range<usize>),
)
    ensures
        runs_of(tracks, a + b) == runs_of(tracks, a) + runs_of(tracks, b),
        ({
            let one = runs_of(tracks, seq![run]);
            if run.0 < tracks.len() && run.1.start <= run.1.end <= tracks[run.0 as int].samples.len() {
                let samples = tracks[run.0 as int].samples;
                &&& one.len() == 1
                &&& one[0].track == tracks[run.0 as int]
                &&& one[0].samples.len() == run.1.end - run.1.start
                &&& forall|i: int|
                    0 <= i < one[0].samples.len() ==> #[trigger] one[0].samples[i] == samples[
                        run.1.start + i]
            } else {
                one.len() == 0
            }
        }),
{
    lemma_runs_append(tracks, a, b);
    assert(seq![run].drop_last() =~= Seq::empty());
    assert(runs_of(tracks, Seq::empty()) =~= Seq::empty());
}

proof fn lemma_runs_append(
    tracks: Seq<TrackView>,
    a: Seq<(usize, Range<usize>)>,
    b: Seq<(usize, Range<usize>)>,
)
    ensures
        runs_of(tracks, a + b) == runs_of(tracks, a) + runs_of(tracks, b),
    decreases b.len(),
{
    if b.len() == 0 {
        assert(a + b =~= a);
        assert(runs_of(tracks, a) + runs_of(tracks, b) =~= runs_of(tracks, a));
    } else {
        lemma_runs_append(tracks, a, b.drop_last());
        assert((a + b).drop_last() =~= a + b.drop_last());
        assert(runs_of(tracks, a + b) =~= runs_of(tracks, a) + runs_of(tracks, b));
    }
}

/// The spans of a run are as few as can be: none goes on where the one before it ends.
pub proof fn law_spans_do_not_touch(samples: Seq<Sample>, i: int)
    requires
        run_bytes(samples) <= u64::MAX,
        0 <= i < merged(samples).len() - 1,
    ensures
        merged(samples)[i].start + merged(samples)[i].len != merged(samples)[i + 1].start,
    decreases samples.len(),
{
    if samples.len() > 0 {
        let before = merged(samples.drop_last());
        let now = merged(samples);
        lemma_merged_within(samples.drop_last());
        if i < before.len() - 1 {
            law_spans_do_not_touch(samples.drop_last(), i);
        }
    }
}

proof fn lemma_merged_within(samples: Seq<Sample>)
    requires
        run_bytes(samples) <= u64::MAX,
    ensures
        forall|i: int|
            0 <= i < merged(samples).len() ==> (#[trigger] merged(samples)[i]).len <= run_bytes(
                samples,
            ),
    decreases samples.len(),
{
    if samples.len() > 0 {
        lemma_merged_within(samples.drop_last());
        let before = merged(samples.drop_last());
        let now = merged(samples);
        assert forall|i: int| 0 <= i < now.len() implies (#[trigger] now[i]).len <= run_bytes(
            samples,
        ) by {
            if i < before.len() {
                assert(before[i].len <= run_bytes(samples.drop_last()));
            }
        }
    }
}

/// A file that holds every sample of a run holds every span of it.
pub proof fn law_whole_files_pass(file: Seq<u8>, samples: Seq<Sample>)
    requires
        run_bytes(samples) <= u64::MAX,
        lie_in(file, samples),
    ensures
        fit_in(merged(samples), file.len() as int),
    decreases samples.len(),
{
    if samples.len() > 0 {
        let rest = samples.drop_last();
        assert(lie_in(file, rest)) by {
            assert forall|i: int| 0 <= i < rest.len() implies (#[trigger] rest[i]).size == 0
                || rest[i].offset + rest[i].size <= file.len() by {
                assert(rest[i] == samples[i]);
            }
        }
        law_whole_files_pass(file, rest);
        lemma_merged_within(rest);
        let before = merged(rest);
        let now = merged(samples);
        let last = samples[samples.len() - 1];
        assert(last.size == 0 || last.offset + last.size <= file.len());
        assert forall|i: int| 0 <= i < now.len() implies (#[trigger] now[i]).len == 0
            || now[i].start + now[i].len <= file.len() by {
            if i < before.len() {
                assert(before[i].len == 0 || before[i].start + before[i].len <= file.len());
                assert(before[i].len <= run_bytes(rest));
            }
        }
    }
}

/// The bytes of runs add up, and those of one run are the sizes of its samples added up.
pub proof fn law_bytes_add_up(
    a: Seq<RunView>,
    b: Seq<RunView>,
    run: RunView,
    samples: Seq<Sample>,
    s: Sample,
    tracks: Seq<TrackView>,
    t: TrackView,
)
    ensures
        data_len(Seq::empty()) == 0,
        data_len(seq![run]) == run_bytes(run.samples),
        data_len(a + b) == data_len(a) + data_len(b),
        run_bytes(Seq::empty()) == 0,
        run_bytes(samples.push(s)) == run_bytes(samples) + s.size,
        movie_bytes(Seq::empty()) == 0,
        movie_bytes(tracks.push(t)) == movie_bytes(tracks) + run_bytes(t.samples),
{
    assert(samples.push(s).drop_last() =~= samples);
    assert(tracks.push(t).drop_last() =~= tracks);
    assert(seq![run].drop_last() =~= Seq::empty());
    assert(data_len(Seq::<RunView>::empty()) == 0);
    lemma_data_append(a, b);
}

proof fn lemma_data_append(a: Seq<RunView>, b: Seq<RunView>)
    ensures
        data_len(a + b) == data_len(a) + data_len(b),
    decreases b.len(),
{
    if b.len() == 0 {
        assert(a + b =~= a);
    } else {
        lemma_data_append(a, b.drop_last());
        assert((a + b).drop_last() =~= a + b.drop_last());
    }
}

/// Reading the spans of runs gives as many bytes as their samples have.
pub proof fn lemma_read_spans_len(file: Seq<u8>, runs: Seq<RunView>)
    requires
        fit_in(all_spans(runs), file.len() as int),
        data_len(runs) <= u64::MAX,
    ensures
        read_spans(file, all_spans(runs)).len() == data_len(runs),
{
    lemma_all_spans_len(runs);
    lemma_read_len(file, all_spans(runs));
}

proof fn lemma_all_spans_len(runs: Seq<RunView>)
    requires
        data_len(runs) <= u64::MAX,
    ensures
        spans_len(all_spans(runs)) == data_len(runs),
    decreases runs.len(),
{
    if runs.len() > 0 {
        lemma_all_spans_len(runs.drop_last());
        lemma_merged_len(runs.last().samples);
        lemma_spans_append(all_spans(runs.drop_last()), merged(runs.last().samples));
    }
}

proof fn lemma_spans_append(a: Seq<Span>, b: Seq<Span>)
    ensures
        spans_len(a + b) == spans_len(a) + spans_len(b),
    decreases b.len(),
{
    if b.len() == 0 {
        assert(a + b =~= a);
    } else {
        lemma_spans_append(a, b.drop_last());
        assert((a + b).drop_last() =~= a + b.drop_last());
    }
}

proof fn lemma_read_len(file: Seq<u8>, spans: Seq<Span>)
    requires
        fit_in(spans, file.len() as int),
    ensures
        read_spans(file, spans).len() == spans_len(spans),
    decreases spans.len(),
{
    if spans.len() > 0 {
        let rest = spans.drop_last();
        assert(fit_in(rest, file.len() as int)) by {
            assert forall|i: int| 0 <= i < rest.len() implies (#[trigger] rest[i]).len == 0
                || rest[i].start + rest[i].len <= file.len() by {
                assert(rest[i] == spans[i]);
            }
        }
        lemma_read_len(file, rest);
        let last = spans[spans.len() - 1];
        assert(last.len == 0 || last.start + last.len <= file.len());
    }
}

} // verus!
