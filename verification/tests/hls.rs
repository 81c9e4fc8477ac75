use delivered::error::Invalid;
use delivered::hls::Stream;
use delivered::mp4::{Mp4, Sample, Track, TrackKind};
use delivered::plan::{pick_cuts, plan_segments, segment_runs, track_bounds, Length, Segment};
use delivered::remux::{check_spans, read_samples, Span};

/// A track of `count` samples, each `duration` long, with a sync sample
/// every `gop` samples (`gop` of 0 marks every sample as sync).
fn track(id: u32, kind: TrackKind, timescale: u32, count: usize, duration: u32, gop: usize) -> Track {
    let samples = (0..count)
        .map(|i| Sample {
            offset: i as u64 * 10,
            size: 10,
            dts: i as u64 * u64::from(duration),
            duration,
            cts_offset: 0,
            is_sync: gop == 0 || i % gop == 0,
        })
        .collect::<Vec<_>>();
    Track {
        id,
        kind,
        timescale,
        duration: count as u64 * u64::from(duration),
        width: 0,
        height: 0,
        language: 0x55C4,
        stsd: Vec::new(),
        samples,
    }
}

fn movie_seconds(mp4: &Mp4) -> f64 {
    mp4.tracks
        .iter()
        .map(|t| t.duration as f64 / t.timescale as f64)
        .fold(0.0, f64::max)
}

fn length_of(seconds: f64) -> Length {
    let text = format!("{seconds:.6}").replace('.', "");
    Length {
        ceiling: seconds.ceil() as u64,
        micros: text.parse().unwrap(),
    }
}

/// Plans with times in seconds, as floating point numbers.
fn plan(mp4: &Mp4, target: f64) -> Vec<Segment> {
    let reference = mp4.video_index().unwrap_or(0);
    let scale = f64::from(mp4.tracks[reference].timescale);
    let end = movie_seconds(mp4);
    plan_segments(
        mp4,
        |last, dts| dts as f64 / scale - last as f64 / scale >= target,
        |cut, from, to| (cut as f64 / f64::from(from) * f64::from(to)) as u64,
        |from, to| {
            let to = to.map_or(end, |to| to as f64 / scale);
            length_of((to - from as f64 / scale).max(0.0))
        },
    )
}

/// Every sample of every track must land in exactly one segment, in order.
fn assert_partitions(mp4: &Mp4, segments: &[Segment]) {
    for (index, track) in mp4.tracks.iter().enumerate() {
        let mut next = 0;
        for segment in segments {
            if let Some((_, range)) = segment.runs.iter().find(|(t, _)| *t == index) {
                assert_eq!(range.start, next, "gap or overlap in track {index}");
                next = range.end;
            }
        }
        assert_eq!(next, track.samples.len(), "track {index} truncated");
    }
}

#[test]
fn segments_start_on_keyframes_and_cover_every_sample() {
    // 30 frames at 10 fps (3 s), keyframe every 10 frames.
    let mp4 = Mp4 {
        timescale: 1000,
        tracks: vec![track(1, TrackKind::Video, 1000, 30, 100, 10)],
    };
    let segments = plan(&mp4, 1.0);

    assert_eq!(segments.len(), 3);
    assert_partitions(&mp4, &segments);
    for segment in &segments {
        let (_, range) = &segment.runs[0];
        assert!(
            mp4.tracks[0].samples[range.start].is_sync,
            "segment does not start on a keyframe"
        );
        assert_eq!(range.len(), 10);
    }
}

#[test]
fn a_target_shorter_than_the_gop_still_cuts_only_on_keyframes() {
    let mp4 = Mp4 {
        timescale: 1000,
        tracks: vec![track(1, TrackKind::Video, 1000, 30, 100, 10)],
    };
    // Asking for 0.1 s cannot produce more segments than there are keyframes.
    let segments = plan(&mp4, 0.1);
    assert_eq!(segments.len(), 3);
    assert_partitions(&mp4, &segments);
}

#[test]
fn audio_follows_the_video_cut_points() {
    // Video: 3 s at 10 fps, keyframes every second. Audio: 48 kHz, 1024
    // samples per frame, so its frames never align with the video ones.
    let mp4 = Mp4 {
        timescale: 1000,
        tracks: vec![
            track(1, TrackKind::Video, 1000, 30, 100, 10),
            track(2, TrackKind::Audio, 48000, 141, 1024, 0),
        ],
    };
    let segments = plan(&mp4, 1.0);

    assert_eq!(segments.len(), 3);
    assert_partitions(&mp4, &segments);
    // First audio sample of segment 1 is the first one at or after 1 s.
    let (_, audio) = segments[1]
        .runs
        .iter()
        .find(|(t, _)| *t == 1)
        .expect("audio run");
    assert_eq!(audio.start, 47);
    assert!(mp4.tracks[1].samples[47].dts >= 48000);
    assert!(mp4.tracks[1].samples[46].dts < 48000);
}

#[test]
fn an_audio_only_movie_is_cut_on_the_target() {
    let mp4 = Mp4 {
        timescale: 1000,
        tracks: vec![track(1, TrackKind::Audio, 48000, 141, 1024, 0)],
    };
    let segments = plan(&mp4, 1.0);
    assert_eq!(segments.len(), 3);
    assert_partitions(&mp4, &segments);
}

#[test]
fn a_single_sample_movie_yields_one_segment() {
    let mp4 = Mp4 {
        timescale: 1000,
        tracks: vec![track(1, TrackKind::Video, 1000, 1, 100, 10)],
    };
    let segments = plan(&mp4, 6.0);
    assert_eq!(segments.len(), 1);
    assert_partitions(&mp4, &segments);
}

#[test]
fn segments_state_their_length() {
    let mp4 = Mp4 {
        timescale: 1000,
        tracks: vec![
            track(1, TrackKind::Audio, 48000, 141, 1024, 0),
            track(2, TrackKind::Video, 1000, 25, 100, 10),
        ],
    };
    let lengths: Vec<Length> = plan(&mp4, 1.0).iter().map(|s| s.duration).collect();
    assert_eq!(
        lengths,
        vec![
            Length { ceiling: 1, micros: 1_000_000 },
            Length { ceiling: 1, micros: 1_000_000 },
            // To the end of the longest track: 141 * 1024 / 48000 - 2 seconds.
            Length { ceiling: 2, micros: 1_008_000 },
        ]
    );
}

#[test]
fn cuts_are_sync_samples_far_enough_from_the_last_cut() {
    let video = track(1, TrackKind::Video, 1000, 30, 100, 5);
    let cuts = pick_cuts(&video.samples, |last, dts| dts - last >= 800);
    assert_eq!(cuts.times, vec![0, 1000, 2000]);
    assert_eq!(cuts.samples, vec![0, 10, 20]);
    assert_eq!(pick_cuts(&video.samples, |_, _| false).times, vec![0]);
    assert_eq!(
        pick_cuts(&video.samples, |_, _| true).times,
        vec![0, 500, 1000, 1500, 2000, 2500]
    );
    assert_eq!(pick_cuts(&[], |_, _| true).samples, vec![0]);
}

#[test]
fn rounding_moves_no_cut_off_its_keyframe() {
    // 2.0 / 49.0 * 49.0 is a little less than 2.
    let mut video = track(1, TrackKind::Video, 49, 4, 1, 2);
    let mp4 = Mp4 { timescale: 1000, tracks: vec![track(1, TrackKind::Video, 49, 4, 1, 2)] };
    let runs: Vec<_> = plan(&mp4, 0.03).into_iter().map(|s| s.runs).collect();
    assert_eq!(runs, vec![vec![(0, 0..2)], vec![(0, 2..4)]]);
    // Nor does a sample that is decoded at the same time.
    video.samples[1].dts = 2;
    let mp4 = Mp4 { timescale: 1000, tracks: vec![video] };
    let runs: Vec<_> = plan(&mp4, 0.03).into_iter().map(|s| s.runs).collect();
    assert_eq!(runs, vec![vec![(0, 0..2)], vec![(0, 2..4)]]);
}

#[test]
fn bounds_are_the_first_samples_at_or_after_a_tick() {
    let audio = track(1, TrackKind::Audio, 1000, 5, 100, 0);
    assert_eq!(track_bounds(&audio, &[0, 100, 101, 900]), vec![0, 1, 2, 5, 5]);
    let bounds = vec![vec![0, 1, 2], vec![0, 0, 4]];
    assert_eq!(segment_runs(&bounds, 0), vec![(0, 0..1)]);
    assert_eq!(segment_runs(&bounds, 1), vec![(0, 1..2), (1, 0..4)]);
}

#[test]
fn adjacent_samples_share_one_read() {
    let at = |offset: u64, size: u32| Sample {
        offset,
        size,
        dts: 0,
        duration: 0,
        cts_offset: 0,
        is_sync: true,
    };
    let samples = [at(100, 10), at(110, 5), at(200, 1), at(201, 0), at(201, 2), at(50, 3)];
    let mut spans = vec![Span { start: 1, len: 2 }];
    read_samples(&samples, &mut spans);
    assert_eq!(
        spans,
        vec![
            Span { start: 1, len: 2 },
            Span { start: 100, len: 15 },
            Span { start: 200, len: 3 },
            Span { start: 50, len: 3 },
        ]
    );

    // Reading the spans gives the bytes of the samples, one after the other.
    let file: Vec<u8> = (0..=255).collect();
    let slice = |start: u64, len: u64| file[start as usize..(start + len) as usize].to_vec();
    let from_spans: Vec<u8> = spans[1..].iter().flat_map(|s| slice(s.start, s.len)).collect();
    let from_samples: Vec<u8> = samples
        .iter()
        .flat_map(|s| slice(s.offset, u64::from(s.size)))
        .collect();
    assert_eq!(from_spans, from_samples);
}

fn stream(mp4: Mp4, target: f64) -> Stream {
    let segments = plan(&mp4, target);
    Stream {
        init: delivered::fmp4::init_segment(&mp4),
        segments,
        mp4,
    }
}

#[test]
fn a_stream_is_packaged_from_its_movie() {
    let mp4 = Mp4 {
        timescale: 1000,
        tracks: vec![track(1, TrackKind::Video, 1000, 30, 100, 10)],
    };
    let init = delivered::fmp4::init_segment(&mp4);
    let packaged = Stream::new(
        mp4,
        |last, dts| dts - last >= 1000,
        |cut, _, _| cut,
        |_, _| Length { ceiling: 1, micros: 1_000_000 },
    );
    assert_eq!(packaged.init, init);
    assert_eq!(packaged.segments.len(), 3);
    assert_eq!(packaged.segments[2].runs, vec![(0, 20..30)]);
    assert_eq!(packaged.total_bytes(), 300);
    assert_eq!(packaged.target_duration(), 1);
}

#[test]
fn the_master_playlist_names_the_rendition() {
    let mut video = track(1, TrackKind::Video, 1000, 30, 100, 10);
    video.width = 1920 << 16;
    video.height = 1080 << 16;
    video.stsd = b"\0\0\0\0\0\0\0\x01\0\0\0\x08ac-3".to_vec();
    let mut audio = track(2, TrackKind::Audio, 48000, 141, 1024, 0);
    audio.stsd = b"\0\0\0\0\0\0\0\x01\0\0\0\x08Opus".to_vec();
    let stream = stream(Mp4 { timescale: 1000, tracks: vec![video, audio] }, 1.0);
    assert_eq!(
        stream.master_playlist("/api/stream/demo", 4560),
        "#EXTM3U\n#EXT-X-VERSION:7\n#EXT-X-INDEPENDENT-SEGMENTS\n\
         #EXT-X-STREAM-INF:BANDWIDTH=4560,RESOLUTION=1920x1080,CODECS=\"ac-3,opus\"\n\
         /api/stream/demo/index.m3u8\n"
    );
}

#[test]
fn the_master_playlist_leaves_out_what_is_not_known() {
    let mut video = track(1, TrackKind::Video, 1000, 1, 100, 10);
    video.width = 1920 << 16;
    video.height = 0xffff;
    let stream = stream(Mp4 { timescale: 1000, tracks: vec![video] }, 1.0);
    assert_eq!(
        stream.master_playlist("", 0),
        "#EXTM3U\n#EXT-X-VERSION:7\n#EXT-X-INDEPENDENT-SEGMENTS\n\
         #EXT-X-STREAM-INF:BANDWIDTH=0\n/index.m3u8\n"
    );
}

#[test]
fn the_media_playlist_lists_every_segment() {
    let mp4 = Mp4 {
        timescale: 1000,
        tracks: vec![
            track(1, TrackKind::Video, 1000, 30, 100, 10),
            track(2, TrackKind::Audio, 48000, 141, 1024, 0),
        ],
    };
    let stream = stream(mp4, 1.0);
    assert_eq!(
        stream.media_playlist("/b"),
        "#EXTM3U\n#EXT-X-VERSION:7\n#EXT-X-PLAYLIST-TYPE:VOD\n#EXT-X-TARGETDURATION:2\n\
         #EXT-X-MEDIA-SEQUENCE:0\n#EXT-X-MAP:URI=\"/b/init.mp4\"\n\
         #EXTINF:1.000000,\n/b/segment-0.m4s\n\
         #EXTINF:1.000000,\n/b/segment-1.m4s\n\
         #EXTINF:1.008000,\n/b/segment-2.m4s\n\
         #EXT-X-ENDLIST\n"
    );
}

#[test]
fn each_uri_of_the_media_playlist_names_its_segment() {
    let mp4 = Mp4 {
        timescale: 1000,
        tracks: vec![track(1, TrackKind::Video, 1000, 130, 100, 10)],
    };
    let stream = stream(mp4, 1.0);
    let text = stream.media_playlist("/b");
    let uris: Vec<&str> = text.lines().filter(|l| !l.starts_with('#')).collect();
    assert_eq!(uris.len(), 13);
    for (i, uri) in uris.iter().enumerate() {
        let file = uri.strip_prefix("/b/").expect("base");
        assert_eq!(delivered::api::segment_index(file), Some(i));
    }
    let target = stream.target_duration();
    assert!(stream.segments.iter().all(|s| s.duration.ceiling <= target));
    assert!(stream.segments.iter().all(|s| s.duration.micros <= u128::from(target) * 1_000_000));
    assert!(text.contains(&format!("#EXT-X-TARGETDURATION:{target}\n")));
}

#[test]
fn a_stream_without_segments_still_has_a_target_duration() {
    let empty = Stream {
        mp4: Mp4 { timescale: 1, tracks: Vec::new() },
        init: Vec::new(),
        segments: Vec::new(),
    };
    assert_eq!(empty.target_duration(), 1);
    assert_eq!(empty.total_bytes(), 0);
    assert_eq!(
        empty.media_playlist("x"),
        "#EXTM3U\n#EXT-X-VERSION:7\n#EXT-X-PLAYLIST-TYPE:VOD\n#EXT-X-TARGETDURATION:1\n\
         #EXT-X-MEDIA-SEQUENCE:0\n#EXT-X-MAP:URI=\"x/init.mp4\"\n#EXT-X-ENDLIST\n"
    );
    assert_eq!(empty.segment_spans(0), Ok(None));
    assert_eq!(empty.segment(0, &[]), None);
}

#[test]
fn playlists_print_six_decimals() {
    let segment = |micros: u128| Segment {
        duration: Length { ceiling: 0, micros },
        runs: Vec::new(),
    };
    let stream = Stream {
        mp4: Mp4 { timescale: 1, tracks: Vec::new() },
        init: Vec::new(),
        segments: vec![segment(0), segment(1), segment(12_345_678), segment(600_000_000)],
    };
    let text = stream.media_playlist("");
    let lines: Vec<&str> = text.lines().filter(|l| l.starts_with("#EXTINF")).collect();
    assert_eq!(
        lines,
        vec![
            "#EXTINF:0.000000,",
            "#EXTINF:0.000001,",
            "#EXTINF:12.345678,",
            "#EXTINF:600.000000,",
        ]
    );
}

#[test]
fn a_segment_carries_the_bytes_of_its_samples() {
    let file: Vec<u8> = (0..300u32).map(|i| (i % 251) as u8).collect();
    let mp4 = Mp4 {
        timescale: 1000,
        tracks: vec![track(1, TrackKind::Video, 1000, 30, 100, 10)],
    };
    let stream = stream(mp4, 1.0);
    let spans = stream.segment_spans(1).expect("fits").expect("exists");
    assert_eq!(spans, vec![Span { start: 100, len: 100 }]);
    let data = &file[100..200];
    let segment = stream.segment(1, data).expect("exists");
    // 28 bytes of `styp`, the `moof` with ten entries, and the header of `mdat`.
    let moof = 8 + 16 + 64 + 16 * 10;
    assert_eq!(segment.len(), 28 + moof + 8 + 100);
    assert_eq!(&segment[28 + moof + 8..], data);
    // Sequence numbers are counted from 1.
    assert_eq!(&segment[28 + 8 + 12..28 + 8 + 16], &[0, 0, 0, 2]);
    assert_eq!(stream.segment_spans(3), Ok(None));
    assert_eq!(stream.segment(3, data), None);
}

#[test]
fn a_segment_that_is_too_large_is_refused() {
    let huge = |size: u32| Sample {
        offset: 0,
        size,
        dts: 0,
        duration: 1,
        cts_offset: 0,
        is_sync: true,
    };
    let mut video = track(1, TrackKind::Video, 1000, 0, 100, 10);
    video.samples = vec![huge(100 << 20), huge(28 << 20), huge(1)];
    let segment = |end: usize| Segment {
        duration: Length { ceiling: 1, micros: 1 },
        runs: vec![(0, 0..end)],
    };
    let stream = Stream {
        mp4: Mp4 { timescale: 1, tracks: vec![video] },
        init: Vec::new(),
        segments: vec![segment(2), segment(3)],
    };
    assert_eq!(stream.segment_spans(0).map(|s| s.map(|s| s.len())), Ok(Some(2)));
    assert_eq!(stream.segment_spans(1), Err(Invalid::SegmentTooLarge));
    assert_eq!(Invalid::SegmentTooLarge.message(), "segment is too large to remux");
}

#[test]
fn a_file_that_is_cut_off_is_refused() {
    let span = |start: u64, len: u64| Span { start, len };
    assert_eq!(check_spans(&[span(0, 4), span(6, 4)], 10), Ok(()));
    assert_eq!(check_spans(&[span(0, 4), span(6, 5)], 10), Err(Invalid::TruncatedBox));
    assert_eq!(check_spans(&[span(11, 1)], 10), Err(Invalid::TruncatedBox));
    assert_eq!(check_spans(&[span(u64::MAX, u64::MAX)], 10), Err(Invalid::TruncatedBox));
    // An empty span is not read.
    assert_eq!(check_spans(&[span(99, 0)], 10), Ok(()));
    assert_eq!(check_spans(&[], 0), Ok(()));
}

#[test]
fn runs_that_name_nothing_are_dropped() {
    let video = track(1, TrackKind::Video, 1000, 3, 100, 10);
    let stream = Stream {
        mp4: Mp4 { timescale: 1, tracks: vec![video] },
        init: Vec::new(),
        segments: vec![Segment {
            duration: Length { ceiling: 1, micros: 1 },
            runs: vec![(1, 0..1), (0, 0..4), (0, 1..2)],
        }],
    };
    assert_eq!(
        stream.segment_spans(0),
        Ok(Some(vec![Span { start: 10, len: 10 }]))
    );
}
