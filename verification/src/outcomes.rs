//! What the operations of the library do, told by what goes in and what comes out.

use vstd::prelude::*;

use crate::boxes::{be32, boxes_from, bytes32, found, CO64, STCO, STSD, STSZ};
use crate::codec::{extension, first_entry};
use crate::error::Invalid;
use crate::fmp4::{
    box_bytes, box_list, data_len, first_data_offset, init_bytes, init_segment, low32,
    media_segment, moof_bytes, run_bytes, run_views, segment_bytes, RunView, TrackRun, MDAT, MFHD,
    MOOF, MVEX, TRAF, TREX, TRUN,
};
use crate::hls::{Stream, StreamView};
use crate::identifiers::law_avc_identifier;
use crate::movies::{law_movie_reads_back, law_track_reads_back, written_trak};
use crate::mp4::{
    described_tracks, handler_kind, in_decode_order, media_header, movie_timescale, parse_moov,
    parse_trak, track_header, Mp4, Sample, Track, TrackView,
};
use crate::plan::{
    chosen_by, cut_samples, cut_times, is_plan, keeps_order, law_cuts_are_sound_and_complete,
    law_last_segment_ends_the_movie, law_no_segment_runs_past_a_keyframe,
    law_runs_come_in_track_order, law_runs_start_at_the_same_time, law_segments_follow_each_other,
    law_segments_partition_every_track, law_segments_partition_the_reference_track, numbers_below,
    pick_cuts, plan_segments, reference, scheduled, segment_views, start_time, Cuts, Length,
    Segment,
};
use crate::players::{
    files_run, law_init_segment_sets_up_every_track, law_segment_files_every_run,
    lemma_segment_boxes, sets_up,
};
use crate::remux::{
    all_spans, bytes_of, fit_in, law_segment_carries_the_samples, law_spans_read_every_sample,
    lemma_read_spans_len, read_spans, run_data, runs_of, Span,
};
use crate::roundtrip::lemma_moof;
use crate::samples::{build_samples, parse_chunk_offsets, parse_stsz, table_samples};
use crate::spelling::{only_small_digits, spelled};
use crate::tables::{
    counts, expanded, holds, is_listed, is_shift, laid, lasting, law_chunk_offsets_read_back,
    law_large_chunk_offsets_read_back, law_sizes_read_back, law_table_reads_back,
    law_uniform_size_read_back, longs, sum, words, written_sizes, Written,
};

verus! {

// --- sample tables -------------------------------------------------------

/// [`parse_stsz`] gives back the sizes that were written, one by one or one for all.
pub proof fn law_parse_stsz(
    stbl: &[u8],
    r: Result<Vec<u32>, Invalid>,
    flags: u32,
    sizes: Seq<u32>,
    size: u32,
    count: u32,
    rest: Seq<u8>,
)
    requires
        call_ensures(parse_stsz, (stbl,), r),
        sizes.len() <= u32::MAX,
    ensures
        found(stbl@, STSZ) == Some(
            bytes32(flags) + bytes32(0) + bytes32(sizes.len() as u32) + words(sizes),
        ) ==> (r matches Ok(read) && read@ == sizes),
        size != 0 && found(stbl@, STSZ) == Some(
            bytes32(flags) + bytes32(size) + bytes32(count) + rest,
        ) ==> (r matches Ok(read) && read@ == Seq::new(count as nat, |i: int| size)),
{
    if found(stbl@, STSZ) == Some(written_sizes(flags, sizes)) {
        law_sizes_read_back(stbl@, flags, sizes);
    }
    if size != 0 && found(stbl@, STSZ) == Some(
        bytes32(flags) + bytes32(size) + bytes32(count) + rest,
    ) {
        law_uniform_size_read_back(stbl@, flags, size, count, rest);
        assert(r->Ok_0@ =~= Seq::new(count as nat, |i: int| size));
    }
}

/// [`parse_chunk_offsets`] gives back the offsets that were written, in 32 or in 64 bits.
pub proof fn law_parse_chunk_offsets(
    stbl: &[u8],
    r: Result<Vec<u64>, Invalid>,
    flags: u32,
    small: Seq<u32>,
    large: Seq<u64>,
)
    requires
        call_ensures(parse_chunk_offsets, (stbl,), r),
        small.len() <= u32::MAX,
        large.len() <= u32::MAX,
    ensures
        found(stbl@, CO64) == Some(
            bytes32(flags) + bytes32(large.len() as u32) + longs(large),
        ) ==> (r matches Ok(read) && read@ == large),
        found(stbl@, CO64) is None && found(stbl@, STCO) == Some(
            bytes32(flags) + bytes32(small.len() as u32) + words(small),
        ) ==> (r matches Ok(read) && read@ == Seq::new(small.len(), |i: int| small[i] as u64)),
{
    if found(stbl@, CO64) == Some(bytes32(flags) + bytes32(large.len() as u32) + longs(large)) {
        law_large_chunk_offsets_read_back(stbl@, flags, large);
    }
    if found(stbl@, CO64) is None && found(stbl@, STCO) == Some(
        bytes32(flags) + bytes32(small.len() as u32) + words(small),
    ) {
        law_chunk_offsets_read_back(stbl@, flags, small);
        assert(r->Ok_0@ =~= Seq::new(small.len(), |i: int| small[i] as u64));
    }
}

/// [`build_samples`] gives back the samples of the table that was written.
#[verifier::rlimit(40)]
pub proof fn law_build_samples(stbl: &[u8], r: Result<Vec<Sample>, Invalid>, t: Written)
    requires
        call_ensures(build_samples, (stbl,), r),
        holds(stbl@, t),
        0 < t.sizes.len() <= sum(counts(t.skipped, t.chunks)),
    ensures
        r matches Ok(samples) && {
            let durations = expanded(t.durations);
            &&& samples@.len() == t.sizes.len()
            &&& laid(
                Seq::new(samples@.len(), |i: int| samples@[i].offset),
                t.sizes,
                t.offsets,
                counts(t.skipped, t.chunks),
                t.offsets.len() as int,
            )
            &&& forall|i: int|
                0 <= i < samples@.len() ==> {
                    let s = #[trigger] samples@[i];
                    &&& s.size == t.sizes[i]
                    &&& s.duration == lasting(durations, i)
                    &&& s.dts == sum(Seq::new(i as nat, |j: int| lasting(durations, j)))
                    &&& is_shift(t.shifts, i, s.cts_offset)
                    &&& s.is_sync == is_listed(t.sync, i)
                }
        },
{
    law_table_reads_back(stbl@, t);
}

// --- movies --------------------------------------------------------------

/// [`parse_trak`] gives back the track that was written.
pub proof fn law_parse_trak(
    trak: &[u8],
    r: Result<Option<Track>, Invalid>,
    tkhd: Seq<u8>,
    mdhd: Seq<u8>,
    hdlr: Seq<u8>,
    stbl: Seq<u8>,
    stsd: Seq<u8>,
    samples: Seq<Sample>,
    id: u32,
    width: u32,
    height: u32,
    timescale: u32,
    language: u16,
)
    requires
        call_ensures(parse_trak, (trak,), r),
        trak@ == written_trak(tkhd, mdhd, hdlr, stbl),
        trak@.len() <= u32::MAX,
        track_header(tkhd) == Some((id, width, height)),
        media_header(mdhd) == Some((timescale, language)),
        found(stbl, STSD) == Some(stsd),
        table_samples(stbl) == Ok::<Seq<Sample>, Invalid>(samples),
        samples.len() > 0,
        timescale > 0,
        !(handler_kind(hdlr) is Other),
    ensures
        r matches Ok(Some(t)) && t@ == (TrackView {
            id,
            kind: handler_kind(hdlr),
            timescale,
            duration: (samples.last().dts + samples.last().duration) as u64,
            width,
            height,
            language,
            stsd,
            samples,
        }),
{
    law_track_reads_back(
        tkhd,
        mdhd,
        hdlr,
        stbl,
        stsd,
        samples,
        id,
        width,
        height,
        timescale,
        language,
    );
}

/// [`parse_moov`] gives back the timescale of the movie and its tracks.
pub proof fn law_parse_moov(
    moov: &[u8],
    r: Result<Mp4, Invalid>,
    mvhd: Seq<u8>,
    timescale: u32,
    traks: Seq<Seq<u8>>,
    tracks: Seq<TrackView>,
)
    requires
        call_ensures(parse_moov, (moov,), r),
        moov@ == box_bytes(0x6d76_6864, mvhd) + box_list(0x7472_616b, traks),
        moov@.len() <= u32::MAX,
        movie_timescale(mvhd) == Some(timescale),
        timescale > 0,
        described_tracks(traks) == Ok::<Seq<TrackView>, Invalid>(tracks),
    ensures
        tracks.len() > 0 ==> (r matches Ok(mp4) && mp4@.timescale == timescale && mp4@.tracks
            == tracks),
        tracks.len() == 0 ==> (r matches Err(e) && e == Invalid::NoTrack),
{
    law_movie_reads_back(mvhd, timescale, traks, tracks);
}

// --- cuts ----------------------------------------------------------------

/// [`pick_cuts`] starts a segment with the first sample, and then exactly with each sync
/// sample that `far_enough` accepts: one that starts a segment was accepted, and one that
/// does not may be turned down.
pub proof fn law_pick_cuts<F: Fn(u64, u64) -> bool>(samples: &[Sample], far_enough: F, r: Cuts)
    requires
        call_ensures(pick_cuts::<F>, (samples, far_enough), r),
        0 < samples@.len() <= usize::MAX,
    ensures
        r.samples@.len() == r.times@.len() > 0,
        r.samples@[0] == 0,
        r.times@[0] == 0,
        forall|k: int|
            0 < k < r.samples@.len() ==> {
                let start = #[trigger] r.samples@[k] as int;
                &&& r.samples@[k - 1] < start < samples@.len()
                &&& samples@[start].is_sync
                &&& r.times@[k] == samples@[start].dts
                &&& call_ensures(far_enough, (r.times@[k - 1], samples@[start].dts), true)
            },
        forall|k: int, i: int|
            0 <= k < r.samples@.len() && r.samples@[k] < i < samples@.len() && (k + 1
                < r.samples@.len() ==> i < r.samples@[k + 1]) && (#[trigger] samples@[i]).is_sync
                ==> call_ensures(far_enough, (#[trigger] r.times@[k], samples@[i].dts), false),
{
    let chosen = choose|chosen: Seq<bool>| #[trigger]
        chosen_by(far_enough, samples@, chosen) && r.times@ == cut_times(
            samples@,
            chosen,
            samples@.len() as int,
        ) && r.samples@ == cut_samples(chosen, samples@.len() as int);
    law_cuts_are_sound_and_complete(far_enough, samples@, chosen, r.samples@, r.times@);
}

// --- identifiers ---------------------------------------------------------

/// [`Track::codec`] of an AVC track: its type, a dot, and in hexadecimal bytes 1, 2 and 3 of
/// the `avcC` payload.
pub proof fn law_avc_codec(
    track: &Track,
    r: Option<String>,
    format: u32,
    body: Seq<u8>,
    avcc: Seq<u8>,
)
    requires
        call_ensures(Track::codec, (track,), r),
        format == 0x6176_6331 || format == 0x6176_6333,
        first_entry(track@.stsd) == Some((format, body)),
        extension(body, 78, 0x6176_6343) == Some(avcc),
        avcc.len() >= 4,
    ensures
        r matches Some(text) && {
            &&& text@.len() == 11
            &&& text@.take(5) == (if format == 0x6176_6331 {
                "avc1."@
            } else {
                "avc3."@
            })
            &&& only_small_digits(text@.skip(5))
            &&& spelled(text@.subrange(5, 7), 16) == avcc[1]
            &&& spelled(text@.subrange(7, 9), 16) == avcc[2]
            &&& spelled(text@.subrange(9, 11), 16) == avcc[3]
        },
{
    law_avc_identifier(track@.stsd, format, body, avcc);
}

// --- segments ------------------------------------------------------------

/// [`init_segment`] sets up each track, in order, and lists it in `mvex` under its own
/// identifier.
pub proof fn law_init_segment(mp4: &Mp4, r: Vec<u8>, i: int)
    requires
        call_ensures(init_segment, (mp4,), r),
        r@.len() <= u32::MAX,
        0 <= i < mp4@.tracks.len(),
    ensures
        ({
            let moov = boxes_from(r@, 0, 0x6d6f_6f76)[0];
            let traks = boxes_from(moov, 0, 0x7472_616b);
            let trexes = boxes_from(boxes_from(moov, 0, MVEX)[0], 0, TREX);
            &&& traks.len() == trexes.len() == mp4@.tracks.len()
            &&& sets_up(traks[i], mp4@.tracks[i])
            &&& be32(trexes[i], 4) == mp4@.tracks[i].id
            &&& be32(trexes[i], 8) == 1
        }),
{
    law_init_segment_sets_up_every_track(mp4@, i);
}

/// [`media_segment`] carries the sequence number, files each run under the identifier of
/// its own track, and holds the sample bytes.
pub proof fn law_media_segment(
    sequence: u32,
    runs: &[TrackRun<'_>],
    data: &[u8],
    r: Vec<u8>,
    i: int,
)
    requires
        call_ensures(media_segment, (sequence, runs, data), r),
        first_data_offset(run_views(runs@)) <= u32::MAX,
        data@.len() + 8 <= u32::MAX,
        0 <= i < runs@.len(),
    ensures
        ({
            let moofs = boxes_from(r@, 0, MOOF);
            let trafs = boxes_from(moofs[0], 0, TRAF);
            &&& moofs.len() == 1
            &&& found(moofs[0], MFHD) matches Some(mfhd) && be32(mfhd, 4) == sequence
            &&& boxes_from(r@, 0, MDAT) == seq![data@]
            &&& trafs.len() == runs@.len()
            &&& files_run(trafs[i], runs@[i].track@.id, runs@[i].samples@)
        }),
{
    let views = run_views(runs@);
    assert(views[i].track == runs@[i].track@ && views[i].samples == runs@[i].samples@);
    law_segment_files_every_run(sequence, views, data@, i);
}

/// [`plan_segments`] schedules every sample of every track once and in order, as long as
/// samples are in decode order and `tick` keeps the order of times. In each segment the
/// tracks come in order, a track other than the reference track starts at the first sample
/// that is decoded when the segment starts, or later, and the last segment lasts to the end
/// of the movie.
#[verifier::rlimit(40)]
pub proof fn law_plan_segments<
    F: Fn(u64, u64) -> bool,
    G: Fn(u64, u32, u32) -> u64,
    H: Fn(u64, Option<u64>) -> Length,
>(
    mp4: &Mp4,
    far_enough: F,
    tick: G,
    length: H,
    r: Vec<Segment>,
    t: int,
    k: int,
    j: int,
    other: int,
)
    requires
        call_ensures(plan_segments::<F, G, H>, (mp4, far_enough, tick, length), r),
        0 < mp4@.tracks.len() <= usize::MAX,
        0 < mp4@.tracks[reference(mp4@.tracks)].samples.len() <= usize::MAX,
        forall|i: int|
            0 <= i < mp4@.tracks.len() ==> in_decode_order((#[trigger] mp4@.tracks[i]).samples),
        keeps_order(tick),
        0 <= t < mp4@.tracks.len(),
        0 <= k < r@.len(),
        0 <= j < r@[k].runs@.len(),
        r@[k].runs@[j].0 == reference(mp4@.tracks),
        0 <= other < r@[k].runs@.len(),
    ensures
        ({
            let segments = segment_views(r@);
            let lead = mp4@.tracks[reference(mp4@.tracks)];
            let runs = r@[k].runs@;
            let (at, range) = runs[other];
            let track = mp4@.tracks[at as int];
            let start = start_time(lead.samples, k, runs[j].1.start as int);
            &&& scheduled(segments, t, segments.len() as int) == numbers_below(
                mp4@.tracks[t].samples.len() as int,
            )
            &&& forall|a: int, b: int|
                0 <= a < b < runs.len() ==> (#[trigger] runs[a]).0 < (#[trigger] runs[b]).0
            &&& at < mp4@.tracks.len()
            &&& range.start < range.end
            &&& at != reference(mp4@.tracks) ==> exists|x: u64| #[trigger]
                call_ensures(tick, (start, lead.timescale, track.timescale), x) && {
                    &&& forall|i: int|
                        0 <= i < range.start ==> (#[trigger] track.samples[i]).dts < x
                    &&& forall|i: int|
                        range.start <= i < track.samples.len() ==> x <= (
                        #[trigger] track.samples[i]).dts
                }
            &&& k == r@.len() - 1 ==> runs[j].1.end == lead.samples.len() && call_ensures(
                length,
                (start, None),
                r@[k].duration,
            )
        }),
{
    let m = mp4@;
    let segments = segment_views(r@);
    let (chosen, ticks, bounds) = choose|
        chosen: Seq<bool>,
        ticks: Seq<Seq<u64>>,
        bounds: Seq<Seq<usize>>,
    | #[trigger]
        is_plan(m, far_enough, tick, length, chosen, ticks, bounds, segments);
    assert(segments[k] == r@[k]@);
    assert(segments[k].runs == r@[k].runs@);
    law_segments_partition_every_track(
        m,
        far_enough,
        tick,
        length,
        chosen,
        ticks,
        bounds,
        segments,
        t,
    );
    law_runs_come_in_track_order(
        m,
        far_enough,
        tick,
        length,
        chosen,
        ticks,
        bounds,
        segments,
        k,
    );
    if r@[k].runs@[other].0 != reference(m.tracks) {
        law_runs_start_at_the_same_time(
            m,
            far_enough,
            tick,
            length,
            chosen,
            ticks,
            bounds,
            segments,
            k,
            j,
            other,
        );
    }
    if k == segments.len() - 1 {
        assert(segments.last() == segments[k]);
        law_last_segment_ends_the_movie(
            m,
            far_enough,
            tick,
            length,
            chosen,
            ticks,
            bounds,
            segments,
            j,
        );
    }
}

/// A stream holds the movie, its init segment, and a plan of it in which every sample of
/// the reference track is scheduled once and in order, no segment goes past a keyframe that
/// is far enough, and each segment but the last is as long as it is to the next.
#[verifier::rlimit(40)]
pub proof fn law_new_stream<
    F: Fn(u64, u64) -> bool,
    G: Fn(u64, u32, u32) -> u64,
    H: Fn(u64, Option<u64>) -> Length,
>(mp4: Mp4, far_enough: F, tick: G, length: H, r: Stream)
    requires
        call_ensures(Stream::new::<F, G, H>, (mp4, far_enough, tick, length), r),
        0 < mp4@.tracks.len() <= usize::MAX,
        0 < mp4@.tracks[reference(mp4@.tracks)].samples.len() <= usize::MAX,
    ensures
        r@.mp4 == mp4@,
        r@.init == init_bytes(mp4@),
        ({
            let lead = reference(mp4@.tracks);
            let samples = mp4@.tracks[lead].samples;
            let segments = r@.segments;
            &&& segments.len() > 0
            &&& scheduled(segments, lead, segments.len() as int) == numbers_below(
                samples.len() as int,
            )
            &&& forall|k: int, j: int, i: int|
                0 <= k < segments.len() && 0 <= j < segments[k].runs.len()
                    && #[trigger] segments[k].runs[j].0 == lead && segments[k].runs[j].1.start < i
                    < segments[k].runs[j].1.end && (#[trigger] samples[i]).is_sync
                    ==> call_ensures(
                    far_enough,
                    (
                        start_time(samples, k, segments[k].runs[j].1.start as int),
                        samples[i].dts,
                    ),
                    false,
                )
            &&& forall|k: int, j: int, n: int|
                0 <= k < segments.len() - 1 && 0 <= j < segments[k].runs.len()
                    && #[trigger] segments[k].runs[j].0 == lead && 0 <= n < segments[k
                    + 1].runs.len() && #[trigger] segments[k + 1].runs[n].0 == lead ==> {
                    let from = segments[k].runs[j].1.start as int;
                    let to = segments[k + 1].runs[n].1.start as int;
                    let start = start_time(samples, k, from);
                    &&& from < to < samples.len()
                    &&& samples[to].is_sync
                    &&& call_ensures(far_enough, (start, samples[to].dts), true)
                    &&& call_ensures(length, (start, Some(samples[to].dts)), segments[k].duration)
                }
        }),
{
    let m = mp4@;
    let segments = r@.segments;
    let lead = reference(m.tracks);
    let samples = m.tracks[lead].samples;
    let (chosen, ticks, bounds) = choose|
        chosen: Seq<bool>,
        ticks: Seq<Seq<u64>>,
        bounds: Seq<Seq<usize>>,
    | #[trigger]
        is_plan(m, far_enough, tick, length, chosen, ticks, bounds, segments);
    let n = samples.len() as int;
    law_cuts_are_sound_and_complete(
        far_enough,
        samples,
        chosen,
        cut_samples(chosen, n),
        cut_times(samples, chosen, n),
    );
    law_segments_partition_the_reference_track(
        m,
        far_enough,
        tick,
        length,
        chosen,
        ticks,
        bounds,
        segments,
    );
    assert forall|k: int, j: int, i: int|
        0 <= k < segments.len() && 0 <= j < segments[k].runs.len()
            && #[trigger] segments[k].runs[j].0 == lead && segments[k].runs[j].1.start < i
            < segments[k].runs[j].1.end && (#[trigger] samples[i]).is_sync implies call_ensures(
        far_enough,
        (start_time(samples, k, segments[k].runs[j].1.start as int), samples[i].dts),
        false,
    ) by {
        law_no_segment_runs_past_a_keyframe(
            m,
            far_enough,
            tick,
            length,
            chosen,
            ticks,
            bounds,
            segments,
            k,
            j,
            i,
        );
    }
    assert forall|k: int, j: int, n: int|
        0 <= k < segments.len() - 1 && 0 <= j < segments[k].runs.len()
            && #[trigger] segments[k].runs[j].0 == lead && 0 <= n < segments[k + 1].runs.len()
            && #[trigger] segments[k + 1].runs[n].0 == lead implies ({
        let from = segments[k].runs[j].1.start as int;
        let to = segments[k + 1].runs[n].1.start as int;
        let start = start_time(samples, k, from);
        &&& from < to < samples.len()
        &&& samples[to].is_sync
        &&& call_ensures(far_enough, (start, samples[to].dts), true)
        &&& call_ensures(length, (start, Some(samples[to].dts)), segments[k].duration)
    }) by {
        law_segments_follow_each_other(
            m,
            far_enough,
            tick,
            length,
            chosen,
            ticks,
            bounds,
            segments,
            k,
            j,
            n,
        );
    }
}

/// Where sample `j` of run `i` lies in a segment, by the `trun` box that files it: behind the
/// `styp` box, which has 28 bytes, as far as its data offset and the samples before it say.
pub open spec fn place_in(segment: Seq<u8>, i: int, samples: Seq<Sample>, j: int) -> int {
    let trafs = boxes_from(boxes_from(segment, 0, MOOF)[0], 0, TRAF);
    28 + be32(found(trafs[i], TRUN)->0, 8) + run_bytes(samples.take(j))
}

#[verifier::rlimit(40)]
proof fn lemma_place_in(file: Seq<u8>, sequence: u32, runs: Seq<RunView>, i: int, j: int)
    requires
        fit_in(all_spans(runs), file.len() as int),
        first_data_offset(runs) + data_len(runs) + 8 <= u32::MAX,
        0 <= i < runs.len(),
        0 <= j < runs[i].samples.len(),
    ensures
        ({
            let data = read_spans(file, all_spans(runs));
            let segment = segment_bytes(sequence, runs, data);
            let sample = runs[i].samples[j];
            let at = place_in(segment, i, runs[i].samples, j);
            &&& data.len() + 8 <= u32::MAX
            &&& at + sample.size <= segment.len()
            &&& segment.subrange(at, at + sample.size) == bytes_of(file, sample)
        }),
{
    let data = read_spans(file, all_spans(runs));
    lemma_read_spans_len(file, runs);
    law_segment_carries_the_samples(file, sequence, runs, i, j);
    lemma_moof(sequence, runs);
    lemma_segment_boxes(sequence, runs, data);
    assert(boxes_from(segment_bytes(sequence, runs, data), 0, MOOF)[0] == moof_bytes(
        sequence,
        runs,
    ));
}

/// The runs of segment `index` of a stream, with the samples that they schedule.
pub open spec fn runs_at_index(stream: StreamView, index: int) -> Seq<RunView> {
    runs_of(stream.mp4.tracks, stream.segments[index].runs)
}

/// [`Stream::segment`] of what [`Stream::segment_spans`] names: where the file holds all
/// spans, the segment is there, and carries each sample of each run with the bytes that it
/// has in the file.
#[verifier::rlimit(40)]
pub proof fn law_segment_carries_the_file(
    stream: &Stream,
    index: usize,
    spans: Vec<Span>,
    file: Seq<u8>,
    data: &[u8],
    r: Option<Vec<u8>>,
    i: int,
    j: int,
)
    requires
        call_ensures(
            Stream::segment_spans,
            (stream, index),
            Ok::<Option<Vec<Span>>, Invalid>(Some(spans)),
        ),
        fit_in(spans@, file.len() as int),
        data@ == read_spans(file, spans@),
        call_ensures(Stream::segment, (stream, index, data), r),
        first_data_offset(runs_at_index(stream@, index as int)) + data_len(
            runs_at_index(stream@, index as int),
        ) + 8 <= u32::MAX,
        0 <= i < runs_at_index(stream@, index as int).len(),
        0 <= j < runs_at_index(stream@, index as int)[i].samples.len(),
    ensures
        index < stream@.segments.len(),
        data_len(runs_at_index(stream@, index as int)) <= 134_217_728,
        r matches Some(segment) && {
            let samples = runs_at_index(stream@, index as int)[i].samples;
            let at = place_in(segment@, i, samples, j);
            &&& at + samples[j].size <= segment@.len()
            &&& segment@.subrange(at, at + samples[j].size) == bytes_of(file, samples[j])
        },
{
    let runs = runs_at_index(stream@, index as int);
    lemma_place_in(file, low32((index + 1) as nat), runs, i, j);
}

/// [`Stream::segment`] is numbered one above its index, and files each of its runs under
/// the identifier of its track. There is a segment for each that was planned, and no other.
#[verifier::rlimit(40)]
pub proof fn law_segment_files_its_runs(
    stream: &Stream,
    index: usize,
    data: &[u8],
    r: Option<Vec<u8>>,
    i: int,
)
    requires
        call_ensures(Stream::segment, (stream, index, data), r),
        index < u32::MAX,
        first_data_offset(runs_at_index(stream@, index as int)) <= u32::MAX,
        data@.len() + 8 <= u32::MAX,
        0 <= i < runs_at_index(stream@, index as int).len(),
    ensures
        r is Some <==> index < stream@.segments.len(),
        r matches Some(segment) ==> {
            let runs = runs_at_index(stream@, index as int);
            let moofs = boxes_from(segment@, 0, MOOF);
            let trafs = boxes_from(moofs[0], 0, TRAF);
            &&& moofs.len() == 1
            &&& found(moofs[0], MFHD) matches Some(mfhd) && be32(mfhd, 4) == index + 1
            &&& boxes_from(segment@, 0, MDAT) == seq![data@]
            &&& trafs.len() == runs.len()
            &&& files_run(trafs[i], runs[i].track.id, runs[i].samples)
        },
{
    let runs = runs_at_index(stream@, index as int);
    law_segment_files_every_run(low32((index + 1) as nat), runs, data@, i);
}

/// [`Stream::segment_spans`] names, for each segment that was planned, the parts of the file
/// that hold its samples: reading them gives the bytes of the samples, run by run. Segments
/// of more than 128 MiB are refused, and only they.
pub proof fn law_segment_spans(
    stream: &Stream,
    index: usize,
    r: Result<Option<Vec<Span>>, Invalid>,
    file: Seq<u8>,
)
    requires
        call_ensures(Stream::segment_spans, (stream, index), r),
    ensures
        r == Ok::<Option<Vec<Span>>, Invalid>(None) <==> index >= stream@.segments.len(),
        r is Err <==> index < stream@.segments.len() && data_len(
            runs_at_index(stream@, index as int),
        ) > 134_217_728,
        r matches Err(e) ==> e == Invalid::SegmentTooLarge,
        r matches Ok(Some(spans)) ==> (fit_in(spans@, file.len() as int) ==> read_spans(
            file,
            spans@,
        ) == run_data(file, runs_at_index(stream@, index as int))),
{
    if let Ok(Some(spans)) = r {
        let runs = runs_at_index(stream@, index as int);
        if fit_in(spans@, file.len() as int) {
            law_spans_read_every_sample(file, runs);
        }
    }
}

} // verus!
