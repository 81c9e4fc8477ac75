use delivered::boxes::{boxes, find_box, u32be, u64be};
use delivered::fmp4::{boxed, init_segment, media_segment, run_data_len, TrackRun};
use delivered::mp4::{Mp4, Sample, Track, TrackKind};

const MOOV: u32 = u32::from_be_bytes(*b"moov");
const TRAK: u32 = u32::from_be_bytes(*b"trak");
const STSD: u32 = u32::from_be_bytes(*b"stsd");

fn sample(offset: u64, size: u32, dts: u64, is_sync: bool) -> Sample {
    Sample {
        offset,
        size,
        dts,
        duration: 100,
        cts_offset: 0,
        is_sync,
    }
}

fn track(id: u32, kind: TrackKind, samples: Vec<Sample>) -> Track {
    Track {
        id,
        kind,
        timescale: 1000,
        duration: samples.len() as u64 * 100,
        width: 320 << 16,
        height: 240 << 16,
        language: 0x55C4,
        // Smallest plausible stsd: version/flags, entry_count, one entry.
        stsd: vec![0, 0, 0, 0, 0, 0, 0, 1, 0, 0, 0, 8, b'a', b'v', b'c', b'1'],
        samples,
    }
}

/// Walks the top-level boxes, returning `(kind, offset, size)`.
fn top_level(buf: &[u8]) -> Vec<([u8; 4], usize, usize)> {
    let mut out = Vec::new();
    let mut off = 0;
    while off + 8 <= buf.len() {
        let size = u32::from_be_bytes(buf[off..off + 4].try_into().unwrap()) as usize;
        let kind: [u8; 4] = buf[off + 4..off + 8].try_into().unwrap();
        out.push((kind, off, size));
        off += size;
    }
    out
}

/// Reads every `trun.data_offset` out of a `moof`, in order.
fn trun_data_offsets(moof: &[u8]) -> Vec<i32> {
    let mut out = Vec::new();
    // The payload holds no sample data, so a plain scan cannot false-match.
    let mut at = 0;
    while at + 20 <= moof.len() {
        if &moof[at..at + 4] == b"trun" {
            out.push(i32::from_be_bytes(
                moof[at + 12..at + 16].try_into().unwrap(),
            ));
        }
        at += 1;
    }
    out
}

#[test]
fn init_segment_is_a_well_formed_ftyp_moov_pair() {
    let mp4 = Mp4 {
        timescale: 1000,
        tracks: vec![
            track(1, TrackKind::Video, vec![sample(0, 10, 0, true)]),
            track(2, TrackKind::Audio, vec![sample(10, 20, 0, true)]),
        ],
    };
    let init = init_segment(&mp4);
    let boxes = top_level(&init);
    assert_eq!(
        boxes.iter().map(|b| b.0).collect::<Vec<_>>(),
        vec![*b"ftyp", *b"moov"]
    );
    // Every byte must be accounted for by a top-level box.
    assert_eq!(boxes.iter().map(|b| b.2).sum::<usize>(), init.len());
}

#[test]
fn trun_data_offsets_point_at_each_run() {
    let video = track(
        1,
        TrackKind::Video,
        vec![sample(0, 4, 0, true), sample(4, 6, 100, false)],
    );
    let audio = track(2, TrackKind::Audio, vec![sample(10, 5, 0, true)]);

    // 4 + 6 video bytes, then 5 audio bytes, in run order.
    let data: Vec<u8> = (0u8..15).collect();
    let runs = vec![
        TrackRun {
            track: &video,
            samples: &video.samples,
        },
        TrackRun {
            track: &audio,
            samples: &audio.samples,
        },
    ];
    let segment = media_segment(1, &runs, &data);

    let boxes = top_level(&segment);
    assert_eq!(
        boxes.iter().map(|b| b.0).collect::<Vec<_>>(),
        vec![*b"styp", *b"moof", *b"mdat"]
    );
    assert_eq!(boxes.iter().map(|b| b.2).sum::<usize>(), segment.len());

    let (_, moof_at, moof_size) = boxes[1];
    let (_, mdat_at, _) = boxes[2];
    // The first run must start right after the mdat header, the second
    // exactly 10 bytes further in.
    let offsets = trun_data_offsets(&segment[moof_at..moof_at + moof_size]);
    assert_eq!(offsets.len(), 2);
    assert_eq!(moof_at + offsets[0] as usize, mdat_at + 8);
    assert_eq!(moof_at + offsets[1] as usize, mdat_at + 8 + 10);
    assert_eq!(&segment[mdat_at + 8..], &data[..]);
}

#[test]
fn the_init_segment_has_the_exact_bytes() {
    let mp4 = Mp4 {
        timescale: 90000,
        tracks: vec![track(7, TrackKind::Video, Vec::new())],
    };
    let init = init_segment(&mp4);
    assert_eq!(&init[..36], b"\x00\x00\x00\x24ftypiso5\x00\x00\x00\x00iso5iso6mp41avc1cmfc");
    let moov = find_box(&init, MOOV).expect("moov");
    // mvhd: 100 bytes, the timescale, rate, volume, matrix, and the next id.
    assert_eq!(&moov[..8], b"\x00\x00\x00\x6cmvhd");
    let mvhd = &moov[8..108];
    assert_eq!(u32be(mvhd, 12), Ok(90000));
    assert_eq!(u32be(mvhd, 20), Ok(0x10000));
    assert_eq!(u32be(mvhd, 24), Ok(0x0100_0000));
    assert_eq!(u32be(mvhd, 36), Ok(0x10000));
    assert_eq!(u32be(mvhd, 52), Ok(0x10000));
    assert_eq!(u32be(mvhd, 68), Ok(0x4000_0000));
    assert_eq!(u32be(mvhd, 96), Ok(8));
    // mvex holds one trex: the track and its default sample description.
    let tail = &moov[moov.len() - 40..];
    assert_eq!(
        tail,
        b"\x00\x00\x00\x28mvex\x00\x00\x00\x20trex\x00\x00\x00\x00\x00\x00\x00\x07\
          \x00\x00\x00\x01\x00\x00\x00\x00\x00\x00\x00\x00\x00\x00\x00\x00"
    );
}

#[test]
fn the_init_segment_describes_every_track() {
    let mp4 = Mp4 {
        timescale: 1000,
        tracks: vec![
            track(1, TrackKind::Video, vec![sample(0, 10, 0, true)]),
            track(2, TrackKind::Audio, vec![sample(10, 20, 0, true)]),
        ],
    };
    let init = init_segment(&mp4);
    let moov = find_box(&init, MOOV).expect("moov");
    let traks = boxes(moov, TRAK);
    assert_eq!(traks.len(), 2);
    for (trak, track) in traks.iter().zip(&mp4.tracks) {
        let tkhd = find_box(trak, u32::from_be_bytes(*b"tkhd")).expect("tkhd");
        assert_eq!(tkhd.len(), 84);
        assert_eq!(u32be(tkhd, 0), Ok(3));
        assert_eq!(u32be(tkhd, 12), Ok(track.id));
        assert_eq!(u32be(tkhd, 76), Ok(track.width));
        assert_eq!(u32be(tkhd, 80), Ok(track.height));
        let hdlr = find_box(trak, u32::from_be_bytes(*b"hdlr")).expect("hdlr");
        if track.kind == TrackKind::Audio {
            assert_eq!(&hdlr[8..12], b"soun");
            assert_eq!(&hdlr[24..], b"SoundHandler\0");
            assert_eq!(u32be(tkhd, 36), Ok(0x0100_0000));
            assert!(find_box(trak, u32::from_be_bytes(*b"smhd")).is_some());
        } else {
            assert_eq!(&hdlr[8..12], b"vide");
            assert_eq!(&hdlr[24..], b"VideoHandler\0");
            assert_eq!(u32be(tkhd, 36), Ok(0));
            let vmhd = find_box(trak, u32::from_be_bytes(*b"vmhd")).expect("vmhd");
            assert_eq!(vmhd, [0, 0, 0, 1, 0, 0, 0, 0, 0, 0, 0, 0]);
        }
        let mdhd = find_box(trak, u32::from_be_bytes(*b"mdhd")).expect("mdhd");
        assert_eq!(u32be(mdhd, 12), Ok(1000));
        assert_eq!(&mdhd[20..], [0x55, 0xc4, 0, 0]);
        assert_eq!(find_box(trak, STSD), Some(&track.stsd[..]));
        let stsz = find_box(trak, u32::from_be_bytes(*b"stsz")).expect("stsz");
        assert_eq!(stsz, [0; 12]);
        let dref = find_box(trak, u32::from_be_bytes(*b"dinf")).expect("dinf");
        assert_eq!(
            dref,
            b"\x00\x00\x00\x1cdref\x00\x00\x00\x00\x00\x00\x00\x01\x00\x00\x00\x0curl \x00\x00\x00\x01"
        );
    }
}

#[test]
fn a_media_segment_lists_every_sample() {
    let mut first = sample(0, 4, 0x1_0000_0002, true);
    first.cts_offset = -3;
    first.duration = 40;
    let video = track(9, TrackKind::Video, vec![first, sample(4, 6, 100, false)]);
    let runs = [TrackRun { track: &video, samples: &video.samples }];
    let segment = media_segment(5, &runs, &[0; 10]);
    assert_eq!(
        &segment[..28],
        b"\x00\x00\x00\x1cstypmsdh\x00\x00\x00\x00msdhmsixcmfs"
    );
    let moof = find_box(&segment, u32::from_be_bytes(*b"moof")).expect("moof");
    let mfhd = find_box(moof, u32::from_be_bytes(*b"mfhd")).expect("mfhd");
    assert_eq!(mfhd, [0, 0, 0, 0, 0, 0, 0, 5]);
    let traf = find_box(moof, u32::from_be_bytes(*b"traf")).expect("traf");
    let tfhd = find_box(traf, u32::from_be_bytes(*b"tfhd")).expect("tfhd");
    assert_eq!(tfhd, [0, 2, 0, 0, 0, 0, 0, 9]);
    let tfdt = find_box(traf, u32::from_be_bytes(*b"tfdt")).expect("tfdt");
    assert_eq!(u32be(tfdt, 0), Ok(0x0100_0000));
    assert_eq!(u64be(tfdt, 4), Ok(0x1_0000_0002));
    let trun = find_box(traf, u32::from_be_bytes(*b"trun")).expect("trun");
    assert_eq!(trun.len(), 12 + 2 * 16);
    let words: Vec<u32> = (0..11).map(|i| u32be(trun, 4 * i).unwrap()).collect();
    assert_eq!(
        words,
        vec![
            0x0100_0f01,
            2,
            moof.len() as u32 + 16,
            40,
            4,
            0x0200_0000,
            0xffff_fffd,
            100,
            6,
            0x0101_0000,
            0,
        ]
    );
}

#[test]
fn an_empty_run_has_no_time_and_no_bytes() {
    let video = track(1, TrackKind::Video, Vec::new());
    let runs = [TrackRun { track: &video, samples: &video.samples }];
    let segment = media_segment(1, &runs, &[]);
    let moof = find_box(&segment, u32::from_be_bytes(*b"moof")).expect("moof");
    let traf = find_box(moof, u32::from_be_bytes(*b"traf")).expect("traf");
    let tfdt = find_box(traf, u32::from_be_bytes(*b"tfdt")).expect("tfdt");
    assert_eq!(u64be(tfdt, 4), Ok(0));
    assert_eq!(run_data_len(&video.samples), 0);
    assert_eq!(run_data_len(&[sample(0, 4, 0, true), sample(9, 6, 0, true)]), 10);
}

#[test]
fn a_box_is_its_size_its_type_and_its_payload() {
    assert_eq!(
        boxed(u32::from_be_bytes(*b"free"), &[1, 2, 3]),
        b"\x00\x00\x00\x0bfree\x01\x02\x03"
    );
}
