use delivered::api::Failure;
use delivered::boxes::{boxes, child, find_box, u16be, u32be, u64be, version};
use delivered::codec::{audio_object_type, fourcc};
use delivered::error::Invalid;
use delivered::locate::{first_step, header_step, next_step, read_header, BoxHeader, Step, MAX_MOOV};
use delivered::mp4::{parse_moov, parse_trak, Mp4, Sample, Track, TrackKind};
use delivered::samples::{apply_sync, apply_timing, build_samples, parse_chunk_offsets, parse_stsz};

fn kind(name: &[u8; 4]) -> u32 {
    u32::from_be_bytes(*name)
}

fn bx(name: &[u8; 4], payload: &[u8]) -> Vec<u8> {
    let mut out = (payload.len() as u32 + 8).to_be_bytes().to_vec();
    out.extend_from_slice(name);
    out.extend_from_slice(payload);
    out
}

fn words(values: &[u32]) -> Vec<u8> {
    values.iter().flat_map(|v| v.to_be_bytes()).collect()
}

fn cat(parts: &[Vec<u8>]) -> Vec<u8> {
    parts.concat()
}

fn stts() -> Vec<u8> {
    bx(b"stts", &words(&[0, 2, 2, 10, 1, 20]))
}

fn stsc() -> Vec<u8> {
    bx(b"stsc", &words(&[0, 2, 1, 2, 1, 2, 1, 1]))
}

fn stsz() -> Vec<u8> {
    bx(b"stsz", &words(&[0, 0, 4, 7, 8, 9, 10]))
}

fn stco() -> Vec<u8> {
    bx(b"stco", &words(&[0, 3, 1000, 2000, 3000]))
}

fn stss() -> Vec<u8> {
    bx(b"stss", &words(&[0, 2, 1, 3]))
}

fn ctts() -> Vec<u8> {
    bx(b"ctts", &words(&[0, 1, 2, 0xffff_fff6]))
}

fn stsd() -> Vec<u8> {
    bx(b"stsd", b"\0\0\0\0\0\0\0\x01\0\0\0\x08ac-3")
}

fn tables() -> Vec<Vec<u8>> {
    vec![stsd(), stts(), ctts(), stsc(), stsz(), stco(), stss()]
}

fn tkhd() -> Vec<u8> {
    let mut body = vec![0u8; 84];
    body[12..16].copy_from_slice(&7u32.to_be_bytes());
    body[76..80].copy_from_slice(&(320u32 << 16).to_be_bytes());
    body[80..84].copy_from_slice(&(240u32 << 16).to_be_bytes());
    bx(b"tkhd", &body)
}

fn mdhd() -> Vec<u8> {
    let mut body = vec![0u8; 24];
    body[12..16].copy_from_slice(&600u32.to_be_bytes());
    body[20..22].copy_from_slice(&0x55c4u16.to_be_bytes());
    bx(b"mdhd", &body)
}

fn hdlr(handler: &[u8; 4]) -> Vec<u8> {
    let mut body = vec![0u8; 24];
    body[8..12].copy_from_slice(handler);
    bx(b"hdlr", &body)
}

fn mvhd() -> Vec<u8> {
    let mut body = vec![0u8; 100];
    body[12..16].copy_from_slice(&1000u32.to_be_bytes());
    bx(b"mvhd", &body)
}

fn media(tables: &[Vec<u8>]) -> Vec<u8> {
    let minf = bx(b"minf", &bx(b"stbl", &cat(tables)));
    bx(b"mdia", &cat(&[mdhd(), hdlr(b"vide"), minf]))
}

fn trak(tables: &[Vec<u8>]) -> Vec<u8> {
    cat(&[tkhd(), media(tables)])
}

fn parsed(tables: &[Vec<u8>]) -> Result<Vec<Sample>, Invalid> {
    build_samples(&cat(tables))
}

/// The tables with the box `name` replaced, or left out.
fn with(name: &[u8; 4], replacement: Option<Vec<u8>>) -> Vec<Vec<u8>> {
    tables()
        .into_iter()
        .filter_map(|t| {
            if &t[4..8] == name {
                replacement.clone()
            } else {
                Some(t)
            }
        })
        .collect()
}

fn fault(tables: &[Vec<u8>]) -> Invalid {
    match parsed(tables) {
        Ok(_) => panic!("accepted"),
        Err(e) => e,
    }
}

#[test]
fn the_sample_table_is_flattened() {
    let samples = parsed(&tables()).expect("valid");
    let all: Vec<(u64, u32, u64, u32, i32, bool)> = samples
        .iter()
        .map(|s| (s.offset, s.size, s.dts, s.duration, s.cts_offset, s.is_sync))
        .collect();
    assert_eq!(
        all,
        vec![
            (1000, 7, 0, 10, -10, true),
            (1007, 8, 10, 10, -10, false),
            (2000, 9, 20, 20, 0, true),
            // `stts` ends early: the last duration holds on.
            (3000, 10, 40, 20, 0, false),
        ]
    );
}

#[test]
fn every_sample_is_sync_without_an_stss_box() {
    let samples = parsed(&with(b"stss", None)).expect("valid");
    assert!(samples.iter().all(|s| s.is_sync));
    let samples = parsed(&with(b"ctts", None)).expect("valid");
    assert!(samples.iter().all(|s| s.cts_offset == 0));
}

#[test]
fn timing_keeps_what_the_tables_do_not_give() {
    let sample = Sample {
        offset: 3,
        size: 4,
        dts: 5,
        duration: 6,
        cts_offset: 5,
        is_sync: true,
    };
    let fields = |s: &Sample| (s.offset, s.size, s.dts, s.duration, s.cts_offset, s.is_sync);
    let mut samples = vec![sample; 3];
    assert_eq!(apply_timing(&stts(), &mut samples), Ok(()));
    assert_eq!(fields(&samples[2]), (3, 4, 20, 20, 5, true));
    let mut samples = vec![sample; 3];
    assert_eq!(apply_timing(&cat(&[stts(), ctts()]), &mut samples), Ok(()));
    let offsets: Vec<i32> = samples.iter().map(|s| s.cts_offset).collect();
    assert_eq!(offsets, vec![-10, -10, 5]);
    let mut samples = vec![sample; 3];
    assert_eq!(apply_timing(&[], &mut samples), Err(Invalid::NoStts));
    assert_eq!(fields(&samples[1]), fields(&sample));
    let mut samples = vec![sample; 3];
    samples[1].is_sync = false;
    assert_eq!(apply_sync(&bx(b"stss", &words(&[0, 1, 1])), &mut samples), Ok(()));
    let sync: Vec<bool> = samples.iter().map(|s| s.is_sync).collect();
    assert_eq!(sync, vec![true, false, true]);
}

#[test]
fn tables_that_are_cut_off_are_applied_up_to_there() {
    let sample = Sample {
        offset: 0,
        size: 0,
        dts: 90,
        duration: 91,
        cts_offset: 92,
        is_sync: false,
    };
    let fields = |s: &Sample| (s.dts, s.duration, s.cts_offset);
    // `stts` announces two entries and holds one and a half.
    let mut samples = vec![sample; 4];
    let cut = bx(b"stts", &words(&[0, 2, 2, 10, 1]));
    assert_eq!(apply_timing(&cat(&[cut, ctts()]), &mut samples), Err(Invalid::TruncatedBox));
    let all: Vec<_> = samples.iter().map(fields).collect();
    assert_eq!(all, vec![(0, 10, 92), (10, 10, 92), (90, 91, 92), (90, 91, 92)]);
    // `ctts` announces two entries and holds one.
    let mut samples = vec![sample; 4];
    let cut = bx(b"ctts", &words(&[0, 2, 1, 7]));
    assert_eq!(apply_timing(&cat(&[stts(), cut]), &mut samples), Err(Invalid::TruncatedBox));
    let all: Vec<_> = samples.iter().map(fields).collect();
    assert_eq!(all, vec![(0, 10, 7), (10, 10, 92), (20, 20, 92), (40, 20, 92)]);
    // `stss` announces three entries and holds two.
    let mut samples = vec![sample; 4];
    let cut = bx(b"stss", &words(&[0, 3, 4, 2]));
    assert_eq!(apply_sync(&cut, &mut samples), Err(Invalid::TruncatedBox));
    let sync: Vec<bool> = samples.iter().map(|s| s.is_sync).collect();
    assert_eq!(sync, vec![false, true, false, true]);
    // A box without a count changes nothing.
    let mut samples = vec![sample; 2];
    assert_eq!(apply_sync(&bx(b"stss", &[0; 7]), &mut samples), Err(Invalid::TruncatedBox));
    assert_eq!(apply_timing(&bx(b"stts", &[0; 7]), &mut samples), Err(Invalid::TruncatedBox));
    assert!(samples.iter().all(|s| !s.is_sync && fields(s) == (90, 91, 92)));
}

#[test]
fn sample_sizes_come_from_stsz_or_stz2() {
    assert_eq!(parse_stsz(&stsz()), Ok(vec![7, 8, 9, 10]));
    assert_eq!(parse_stsz(&bx(b"stsz", &words(&[0, 5, 3]))), Ok(vec![5, 5, 5]));
    let stz2 = |field: u8, count: u32, rest: &[u8]| {
        let mut body = vec![0, 0, 0, 0, 0, 0, 0, field];
        body.extend_from_slice(&count.to_be_bytes());
        body.extend_from_slice(rest);
        bx(b"stz2", &body)
    };
    assert_eq!(parse_stsz(&stz2(4, 3, &[0x12, 0x30])), Ok(vec![1, 2, 3]));
    assert_eq!(parse_stsz(&stz2(8, 2, &[200, 3])), Ok(vec![200, 3]));
    assert_eq!(parse_stsz(&stz2(16, 2, &[1, 0, 0, 2])), Ok(vec![256, 2]));
    assert_eq!(parse_stsz(&stz2(4, 3, &[0x12])), Err(Invalid::TruncatedStz2));
    assert_eq!(parse_stsz(&stz2(8, 2, &[1])), Err(Invalid::TruncatedStz2));
    assert_eq!(parse_stsz(&stz2(16, 2, &[1, 0, 0])), Err(Invalid::TruncatedBox));
    assert_eq!(parse_stsz(&stz2(5, 1, &[1, 1, 1])), Err(Invalid::UnsupportedStz2));
    assert_eq!(parse_stsz(&bx(b"stz2", &[0; 4])), Err(Invalid::TruncatedStz2));
    assert_eq!(parse_stsz(&[]), Err(Invalid::NoStsz));
    assert_eq!(
        parse_stsz(&bx(b"stsz", &words(&[0, 0, 2, 7]))),
        Err(Invalid::TruncatedBox)
    );
}

#[test]
fn chunk_offsets_come_from_stco_or_co64() {
    assert_eq!(parse_chunk_offsets(&stco()), Ok(vec![1000, 2000, 3000]));
    assert_eq!(
        parse_chunk_offsets(&bx(b"co64", &words(&[0, 1, 2, 3]))),
        Ok(vec![0x2_0000_0003])
    );
    assert_eq!(parse_chunk_offsets(&[]), Err(Invalid::NoStco));
    assert_eq!(
        parse_chunk_offsets(&bx(b"stco", &words(&[0, 2, 1]))),
        Err(Invalid::TruncatedBox)
    );
}

#[test]
fn defects_of_the_sample_table_are_told_apart() {
    assert_eq!(fault(&with(b"stsc", None)), Invalid::NoStsc);
    assert_eq!(fault(&with(b"stts", None)), Invalid::NoStts);
    assert_eq!(fault(&with(b"stsz", None)), Invalid::NoStsz);
    assert_eq!(fault(&with(b"stco", None)), Invalid::NoStco);
    let zero = bx(b"stsc", &words(&[0, 1, 0, 2, 1]));
    assert_eq!(fault(&with(b"stsc", Some(zero))), Invalid::MalformedStsc);
    let back = bx(b"stsc", &words(&[0, 2, 2, 2, 1, 2, 1, 1]));
    assert_eq!(fault(&with(b"stsc", Some(back))), Invalid::MalformedStsc);
    let few = bx(b"stsc", &words(&[0, 1, 1, 1, 1]));
    assert_eq!(
        fault(&with(b"stsc", Some(few))),
        Invalid::InconsistentSampleTable
    );
    let cut = bx(b"stts", &words(&[0, 2, 2, 10]));
    assert_eq!(fault(&with(b"stts", Some(cut))), Invalid::TruncatedBox);
    let cut = bx(b"stss", &words(&[0, 2, 1]));
    assert_eq!(fault(&with(b"stss", Some(cut))), Invalid::TruncatedBox);
}

#[test]
fn a_table_without_samples_is_empty() {
    let none = bx(b"stsz", &words(&[0, 0, 0]));
    assert_eq!(build_samples(&none).map(|s| s.len()), Ok(0));
    assert!(matches!(parse_trak(&trak(&[stsd(), none])), Ok(None)));
}

#[test]
fn a_movie_is_parsed() {
    let moov = cat(&[mvhd(), bx(b"trak", &trak(&tables()))]);
    let mp4 = match parse_moov(&moov) {
        Ok(mp4) => mp4,
        Err(e) => panic!("{}", e.message()),
    };
    assert_eq!(mp4.timescale, 1000);
    assert_eq!(mp4.tracks.len(), 1);
    let track = &mp4.tracks[0];
    assert_eq!(track.id, 7);
    assert_eq!(track.kind, TrackKind::Video);
    assert_eq!(track.timescale, 600);
    assert_eq!(track.duration, 60);
    assert_eq!((track.width, track.height), (320 << 16, 240 << 16));
    assert_eq!(track.language, 0x55c4);
    assert_eq!(track.stsd, stsd()[8..].to_vec());
    assert_eq!(track.samples.len(), 4);
    assert_eq!(track.codec(), Some(String::from("ac-3")));
    assert_eq!(mp4.video().map(|t| t.id), Some(7));
    assert_eq!(mp4.video_index(), Some(0));
    // The duration is the sum of the samples'.
    assert_eq!(
        track.duration,
        track.samples.iter().map(|s| u64::from(s.duration)).sum::<u64>()
    );
}

#[test]
fn later_versions_of_the_headers_are_read() {
    let mut tk = vec![0u8; 96];
    tk[0] = 1;
    tk[20..24].copy_from_slice(&9u32.to_be_bytes());
    tk[88..92].copy_from_slice(&5u32.to_be_bytes());
    tk[92..96].copy_from_slice(&6u32.to_be_bytes());
    let mut md = vec![0u8; 36];
    md[0] = 1;
    md[32..34].copy_from_slice(&0x1234u16.to_be_bytes());
    let minf = bx(b"minf", &bx(b"stbl", &cat(&tables())));
    let mdia = bx(b"mdia", &cat(&[bx(b"mdhd", &md), hdlr(b"soun"), minf]));
    let track = match parse_trak(&cat(&[bx(b"tkhd", &tk), mdia])) {
        Ok(Some(track)) => track,
        _ => panic!("refused"),
    };
    assert_eq!((track.id, track.width, track.height), (9, 5, 6));
    assert_eq!(track.kind, TrackKind::Audio);
    // A timescale of 0 is taken for 1.
    assert_eq!(track.timescale, 1);
    assert_eq!(track.language, 0x1234);
}

#[test]
fn defects_of_the_movie_are_told_apart() {
    let fault = |moov: &[u8]| match parse_moov(moov) {
        Ok(_) => panic!("accepted"),
        Err(e) => e,
    };
    assert_eq!(fault(&[]), Invalid::NoMvhd);
    assert_eq!(fault(&bx(b"mvhd", &[0; 8])), Invalid::TruncatedBox);
    assert_eq!(fault(&mvhd()), Invalid::NoTrack);

    let fault = |trak: &[u8]| match parse_trak(trak) {
        Ok(_) => panic!("accepted"),
        Err(e) => e,
    };
    let stbl = |tables: &[Vec<u8>]| bx(b"stbl", &cat(tables));
    assert_eq!(fault(&media(&tables())), Invalid::NoTkhd);
    assert_eq!(fault(&tkhd()), Invalid::NoMdia);
    let around = |parts: &[Vec<u8>]| cat(&[tkhd(), bx(b"mdia", &cat(parts))]);
    assert_eq!(fault(&around(&[hdlr(b"vide")])), Invalid::NoMdhd);
    assert_eq!(fault(&around(&[mdhd()])), Invalid::NoHdlr);
    assert_eq!(fault(&around(&[mdhd(), hdlr(b"vide")])), Invalid::NoStbl);
    assert_eq!(
        fault(&around(&[mdhd(), hdlr(b"vide"), stbl(&[stts()])])),
        Invalid::NoStsd
    );
    // A track of another kind is dropped before its tables are looked at.
    assert!(matches!(parse_trak(&around(&[mdhd(), hdlr(b"text")])), Ok(None)));
}

#[test]
fn defects_have_their_messages() {
    let all = [
        (Invalid::MoovTooLarge, "moov box is too large to parse"),
        (Invalid::NoMoov, "no moov box found"),
        (Invalid::NoMvhd, "no mvhd box found"),
        (Invalid::NoTrack, "no playable track found"),
        (Invalid::NoTkhd, "no tkhd box found"),
        (Invalid::NoMdia, "no mdia box found"),
        (Invalid::NoMdhd, "no mdhd box found"),
        (Invalid::NoHdlr, "no hdlr box found"),
        (Invalid::NoStbl, "no stbl box found"),
        (Invalid::NoStsd, "no stsd box found"),
        (Invalid::NoStsc, "no stsc box found"),
        (Invalid::MalformedStsc, "malformed stsc box"),
        (Invalid::InconsistentSampleTable, "sample table is inconsistent"),
        (Invalid::NoStts, "no stts box found"),
        (Invalid::NoStsz, "no stsz box found"),
        (Invalid::TruncatedStz2, "truncated stz2 box"),
        (Invalid::UnsupportedStz2, "unsupported stz2 field size"),
        (Invalid::NoStco, "no stco box found"),
        (Invalid::TruncatedBox, "truncated box"),
    ];
    for (defect, message) in all {
        assert_eq!(defect.message(), message);
    }
}

fn with_stsd(stsd: Vec<u8>) -> Track {
    Track {
        id: 1,
        kind: TrackKind::Other,
        timescale: 1,
        duration: 0,
        width: 0,
        height: 0,
        language: 0,
        stsd,
        samples: Vec::new(),
    }
}

fn codec(format: &[u8; 4], body: &[u8]) -> Option<String> {
    let mut stsd = words(&[0, 1]);
    stsd.extend(bx(format, body));
    with_stsd(stsd).codec()
}

#[test]
fn codecs_are_named_as_players_expect() {
    let mut video = vec![0u8; 78];
    video.extend(bx(b"avcC", &[1, 0x64, 0x00, 0x1f]));
    assert_eq!(codec(b"avc1", &video), Some(String::from("avc1.64001f")));
    assert_eq!(codec(b"avc3", &video), Some(String::from("avc3.64001f")));
    assert_eq!(codec(b"avc1", &[0; 78]), None);
    assert_eq!(codec(b"avc1", &[0; 10]), None);

    let hevc = |config: &[u8]| {
        let mut body = vec![0u8; 78];
        body.extend(bx(b"hvcC", config));
        body
    };
    let main = [1, 0x01, 0x60, 0, 0, 0, 0xb0, 0, 0, 0, 0, 0, 93];
    assert_eq!(codec(b"hvc1", &hevc(&main)), Some(String::from("hvc1.1.6.L93.B0")));
    assert_eq!(codec(b"hev1", &hevc(&main)), Some(String::from("hev1.1.6.L93.B0")));
    // Profile space 1, high tier, profile 2, and a gap among the constraint bytes.
    let high = [1, 0x62, 0x20, 0, 0, 0x01, 0x90, 0, 0x0c, 0, 0, 0, 153];
    assert_eq!(
        codec(b"hvc1", &hevc(&high)),
        Some(String::from("hvc1.A2.80000004.H153.90.0.C"))
    );
    let bare = [1, 0xc4, 0, 0, 0, 0, 0, 0, 0, 0, 0, 0, 30];
    assert_eq!(codec(b"hvc1", &hevc(&bare)), Some(String::from("hvc1.C4.0.L30")));
    assert_eq!(codec(b"hvc1", &hevc(&main[..12])), None);

    assert_eq!(codec(b"mp4a", &[0; 4]), Some(String::from("mp4a.40.2")));
    assert_eq!(codec(b"Opus", &[]), Some(String::from("opus")));
    assert_eq!(codec(b"ac-3", &[]), Some(String::from("ac-3")));
    assert_eq!(codec(b"ec-3", &[]), Some(String::from("ec-3")));
    assert_eq!(codec(b"vp09", &[]), Some(String::from("vp09")));
    assert_eq!(with_stsd(Vec::new()).codec(), None);
}

#[test]
fn audio_object_types_are_read_from_esds() {
    let info = |first: u8, second: u8| {
        vec![
            0, 0, 0, 0, 3, 25, 0, 1, 0, 4, 17, 0x40, 0x15, 0, 0, 0, 0, 0, 0, 0, 0, 0, 0, 0, 5, 2,
            first, second,
        ]
    };
    assert_eq!(audio_object_type(&info(0x12, 0x10)), Some(2));
    assert_eq!(audio_object_type(&info(0x29, 0x10)), Some(5));
    assert_eq!(audio_object_type(&[]), None);
    // An ES_ID of 5 is not the tag.
    let chain = [
        0, 0, 0, 0, 3, 25, 0, 5, 0, 4, 17, 0x40, 0x15, 0, 0, 0, 0, 0, 0, 0, 0, 0, 0, 0, 5, 2, 0x2b,
        0x11, 6, 1, 2,
    ];
    assert_eq!(audio_object_type(&chain), Some(5));
    // Long lengths, a dependency, a URL and a clock reference.
    let mut long = vec![0, 0, 0, 0, 3, 0x80, 0x80, 0x80, 40, 0, 1, 0xe0, 5, 5, 2, 5, 5, 9, 9];
    long.extend_from_slice(&[4, 0x80, 20, 0x40, 0x15, 5, 0, 0, 0, 0, 0, 0, 0, 0, 0, 0]);
    assert_eq!(audio_object_type(&long), None);
    long.extend_from_slice(&[5, 0x80, 0x80, 0x80, 2, 0x12, 0x10]);
    assert_eq!(audio_object_type(&long), Some(2));
    // Another descriptor may stand before the DecoderSpecificInfo.
    let other = [
        0, 0, 0, 0, 3, 28, 0, 1, 0, 4, 20, 0x40, 0x15, 0, 0, 0, 0, 0, 0, 0, 0, 0, 0, 0, 0x14, 1, 1,
        5, 2, 0x2b, 0x11,
    ];
    assert_eq!(audio_object_type(&other), Some(5));
    // Without the chain, the first tag counts.
    assert_eq!(audio_object_type(&[0, 0, 0, 0, 5, 1, 0x10]), Some(2));
    assert_eq!(audio_object_type(&[0, 0, 0, 0, 5, 1, 0x07]), None);
    let mut body = vec![0u8; 28];
    body.extend(bx(b"esds", &info(0x29, 0x10)));
    assert_eq!(codec(b"mp4a", &body), Some(String::from("mp4a.40.5")));
}

#[test]
fn four_character_codes_are_trimmed_and_repaired() {
    assert_eq!(fourcc(kind(b"avc1")), "avc1");
    assert_eq!(fourcc(kind(b"ab \t")), "ab");
    assert_eq!(fourcc(kind(b" ab ")), " ab");
    assert_eq!(fourcc(u32::from_be_bytes([b'a', 0xff, b'b', b'c'])), "a\u{fffd}bc");
    assert_eq!(fourcc(u32::from_be_bytes([0xc3, 0xa9, b'x', b'y'])), "éxy");
}

#[test]
fn samples_are_found_by_decode_time() {
    let mut track = with_stsd(Vec::new());
    track.samples = parsed(&tables()).expect("valid");
    assert_eq!(track.sample_at(0), 0);
    assert_eq!(track.sample_at(1), 1);
    assert_eq!(track.sample_at(20), 2);
    assert_eq!(track.sample_at(40), 3);
    assert_eq!(track.sample_at(41), 4);
}

#[test]
fn the_first_video_track_is_the_video() {
    let mut audio = with_stsd(Vec::new());
    audio.kind = TrackKind::Audio;
    let mut video = with_stsd(Vec::new());
    video.kind = TrackKind::Video;
    video.id = 5;
    let mp4 = Mp4 { timescale: 1, tracks: vec![audio, video] };
    assert_eq!(mp4.video_index(), Some(1));
    assert_eq!(mp4.video().map(|t| t.id), Some(5));
    let none = Mp4 { timescale: 1, tracks: Vec::new() };
    assert_eq!(none.video_index(), None);
}

#[test]
fn boxes_are_walked_and_searched() {
    let body = cat(&[bx(b"free", &[1]), bx(b"trak", &bx(b"tkhd", &[2])), bx(b"free", &[3])]);
    assert_eq!(boxes(&body, kind(b"free")), vec![&[1][..], &[3][..]]);
    assert_eq!(find_box(&body, kind(b"tkhd")), Some(&[2][..]));
    assert_eq!(find_box(&body, kind(b"stsd")), None);
    // Boxes inside one that is no container are not looked at.
    let hidden = bx(b"udta", &bx(b"tkhd", &[2]));
    assert_eq!(find_box(&hidden, kind(b"tkhd")), None);
}

#[test]
fn odd_box_sizes_are_understood() {
    // A size of 0 runs to the end, a size of 1 announces a 64-bit size.
    let mut open = words(&[0]);
    open.extend_from_slice(b"free\x09");
    assert_eq!(boxes(&open, kind(b"free")), vec![&[9][..]]);
    let mut large = words(&[1]);
    large.extend_from_slice(b"free");
    large.extend_from_slice(&18u64.to_be_bytes());
    large.extend_from_slice(&[1, 2, 3]);
    let first = child(&large, 0).expect("box");
    assert_eq!((first.kind, first.payload, first.next), (kind(b"free"), &[1, 2][..], 18));
    // A size below the header, or past the parent, ends the walk.
    let mut short = words(&[7]);
    short.extend_from_slice(b"free");
    assert!(child(&short, 0).is_none());
    let mut long = words(&[9]);
    long.extend_from_slice(b"free");
    assert!(child(&long, 0).is_none());
    assert!(child(&[0; 7], 0).is_none());
}

#[test]
fn fields_are_big_endian() {
    let b = [1, 2, 3, 4, 5, 6, 7, 8];
    assert_eq!(u16be(&b, 6), Ok(0x0708));
    assert_eq!(u32be(&b, 1), Ok(0x0203_0405));
    assert_eq!(u64be(&b, 0), Ok(0x0102_0304_0506_0708));
    assert_eq!(u16be(&b, 7), Err(Invalid::TruncatedBox));
    assert_eq!(u32be(&b, 5), Err(Invalid::TruncatedBox));
    assert_eq!(u64be(&b, 1), Err(Invalid::TruncatedBox));
    assert_eq!(u32be(&b, u64::MAX), Err(Invalid::TruncatedBox));
    assert_eq!(version(&b), 1);
    assert_eq!(version(&[]), 0);
}

/// Follows the search through `file` to its end.
fn search(file: &[u8]) -> Step {
    let len = file.len() as u64;
    let mut step = first_step(len);
    while let Step::Header { pos } = step {
        let rest = &file[pos as usize..];
        step = header_step(len, pos, &rest[..rest.len().min(16)]);
    }
    step
}

#[test]
fn moov_is_found_wherever_it_lies() {
    let front = cat(&[bx(b"ftyp", &[0; 4]), bx(b"moov", &[1, 2, 3]), bx(b"mdat", &[0; 9])]);
    assert_eq!(search(&front), Step::Moov { at: 20, len: 3 });
    let back = cat(&[bx(b"mdat", &[0; 9]), bx(b"moov", &[1, 2, 3])]);
    assert_eq!(search(&back), Step::Moov { at: 25, len: 3 });
    // The first of two wins.
    let two = cat(&[bx(b"moov", &[1]), bx(b"moov", &[2, 2])]);
    assert_eq!(search(&two), Step::Moov { at: 8, len: 1 });
}

#[test]
fn a_search_without_moov_stops() {
    assert_eq!(search(&[]), Step::Stop(Invalid::NoMoov));
    assert_eq!(search(&bx(b"mdat", &[0; 9])), Step::Stop(Invalid::NoMoov));
    // A box that runs past the file hides what follows.
    let mut cut = words(&[100]);
    cut.extend_from_slice(b"mdat");
    cut.extend(bx(b"moov", &[1]));
    assert_eq!(search(&cut), Step::Stop(Invalid::NoMoov));
}

#[test]
fn a_file_cut_off_inside_a_header_is_refused() {
    let mut cut = words(&[1]);
    cut.extend_from_slice(b"mdat");
    assert_eq!(search(&cut), Step::Stop(Invalid::TruncatedBox));
    cut.extend_from_slice(&[0; 7]);
    assert_eq!(search(&cut), Step::Stop(Invalid::TruncatedBox));
    assert_eq!(
        Failure::InvalidData(String::from(Invalid::TruncatedBox.message())).answer(),
        (422, String::from("truncated box\n"))
    );
}

#[test]
fn a_huge_moov_is_refused() {
    let header = |size: u64| BoxHeader { size, kind: kind(b"moov"), header: 8 };
    let len = MAX_MOOV + 100;
    assert_eq!(
        next_step(len, 0, header(MAX_MOOV + 8)),
        Step::Moov { at: 8, len: MAX_MOOV }
    );
    assert_eq!(
        next_step(len, 0, header(MAX_MOOV + 9)),
        Step::Stop(Invalid::MoovTooLarge)
    );
    // A size of 0 stands for the rest of the file.
    assert_eq!(next_step(50, 10, header(0)), Step::Moov { at: 18, len: 32 });
}

#[test]
fn headers_are_8_or_16_bytes() {
    assert_eq!(read_header(&[0; 7]), None);
    assert_eq!(
        read_header(b"\0\0\0\x09moov"),
        Some(BoxHeader { size: 9, kind: kind(b"moov"), header: 8 })
    );
    assert_eq!(read_header(b"\0\0\0\x01mdat\0\0\0\x01\0\0\0"), None);
    assert_eq!(
        read_header(b"\0\0\0\x01mdat\0\0\0\x01\0\0\0\x02"),
        Some(BoxHeader { size: 0x1_0000_0002, kind: kind(b"mdat"), header: 16 })
    );
}
