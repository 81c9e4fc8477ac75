//! What is read back of a movie header that was written.

use vstd::prelude::*;

use crate::boxes::{
    be16, boxes_from, bytes16, bytes32, found, HDLR, MDHD, MDIA, MINF, MVHD, STBL, STSD, TKHD, TRAK,
};
use crate::error::Invalid;
use crate::fmp4::{box_bytes, box_list};
use crate::mp4::{
    described_movie, described_track, described_tracks, handler_kind, media_header, movie_timescale,
    track_header, Mp4View, Sample, TrackView,
};
use crate::roundtrip::{
    law_field_round_trip, lemma_box_list, lemma_box_list_len, lemma_boxes_cons, lemma_find_cons,
    lemma_find_one,
};
use crate::samples::{lemma_table_duration, table_samples};

verus! {

broadcast use crate::fmp4::lemma_box_len;

/// Whether `head` is version and flags, with times of 32 bits in version 0 and of 64 bits
/// in any other. `times` is how many such times follow.
pub open spec fn is_dated(head: Seq<u8>, times: Seq<u8>) -> bool {
    &&& head.len() == 4
    &&& times.len() == if head[0] == 0 {
        8nat
    } else {
        16
    }
}

/// A track header is read back in either version: identifier, width and height.
pub proof fn law_track_header_reads_back(
    head: Seq<u8>,
    times: Seq<u8>,
    id: u32,
    between: Seq<u8>,
    width: u32,
    height: u32,
    rest: Seq<u8>,
)
    requires
        is_dated(head, times),
        between.len() == if head[0] == 0 {
            60nat
        } else {
            64
        },
    ensures
        track_header(
            head + times + bytes32(id) + between + bytes32(width) + bytes32(height) + rest,
        ) == Some((id, width, height)),
{
    let b = head + times + bytes32(id) + between + bytes32(width) + bytes32(height) + rest;
    let at = 4 + times.len() as int;
    let end = at + 4 + between.len() as int;
    assert(b[0] == head[0]);
    assert(b.subrange(at, at + 4) =~= bytes32(id));
    assert(b.subrange(end, end + 4) =~= bytes32(width));
    assert(b.subrange(end + 4, end + 8) =~= bytes32(height));
    law_field_round_trip(b, at, id);
    law_field_round_trip(b, end, width);
    law_field_round_trip(b, end + 4, height);
}

/// A media header is read back in either version: timescale and language.
pub proof fn law_media_header_reads_back(
    head: Seq<u8>,
    times: Seq<u8>,
    timescale: u32,
    duration: Seq<u8>,
    language: u16,
    rest: Seq<u8>,
)
    requires
        is_dated(head, times),
        2 * duration.len() == times.len(),
    ensures
        media_header(head + times + bytes32(timescale) + duration + bytes16(language) + rest)
            == Some((timescale, language)),
{
    let b = head + times + bytes32(timescale) + duration + bytes16(language) + rest;
    let at = 4 + times.len() as int;
    let end = at + 4 + duration.len() as int;
    assert(b[0] == head[0]);
    assert(b.subrange(at, at + 4) =~= bytes32(timescale));
    law_field_round_trip(b, at, timescale);
    assert(b[end] == bytes16(language)[0] && b[end + 1] == bytes16(language)[1]);
    assert(be16(b, end) == language);
}

/// The timescale of a movie header is read back in either version.
pub proof fn law_movie_header_reads_back(
    head: Seq<u8>,
    times: Seq<u8>,
    timescale: u32,
    rest: Seq<u8>,
)
    requires
        is_dated(head, times),
    ensures
        movie_timescale(head + times + bytes32(timescale) + rest) == Some(timescale),
{
    let b = head + times + bytes32(timescale) + rest;
    let at = 4 + times.len() as int;
    assert(b[0] == head[0]);
    assert(b.subrange(at, at + 4) =~= bytes32(timescale));
    law_field_round_trip(b, at, timescale);
}

/// A header that was cut off before its last field is refused.
pub proof fn law_cut_off_headers_are_refused(head: Seq<u8>, rest: Seq<u8>)
    requires
        head.len() == 4,
    ensures
        rest.len() < (if head[0] == 0 {
            80
        } else {
            92int
        }) ==> track_header(head + rest) is None,
        rest.len() < (if head[0] == 0 {
            18
        } else {
            30int
        }) ==> media_header(head + rest) is None,
        rest.len() < (if head[0] == 0 {
            12
        } else {
            20int
        }) ==> movie_timescale(head + rest) is None,
{
    assert((head + rest)[0] == head[0]);
}

/// A handler of type `vide` is video, one of type `soun` audio, and no other is either.
pub proof fn law_handler_reads_back(head: Seq<u8>, kind: u32, rest: Seq<u8>)
    requires
        head.len() == 8,
    ensures
        ({
            let read = handler_kind(head + bytes32(kind) + rest);
            &&& read is Video <==> kind == 0x7669_6465
            &&& read is Audio <==> kind == 0x736f_756e
        }),
{
    let b = head + bytes32(kind) + rest;
    assert(b.subrange(8, 12) =~= bytes32(kind));
    law_field_round_trip(b, 8, kind);
}

/// The payload of a `trak` box.
pub open spec fn written_trak(
    tkhd: Seq<u8>,
    mdhd: Seq<u8>,
    hdlr: Seq<u8>,
    stbl: Seq<u8>,
) -> Seq<u8> {
    box_bytes(TKHD, tkhd) + box_bytes(
        MDIA,
        box_bytes(MDHD, mdhd) + (box_bytes(HDLR, hdlr) + box_bytes(MINF, box_bytes(STBL, stbl))),
    )
}

#[verifier::rlimit(40)]
proof fn lemma_written_trak(tkhd: Seq<u8>, mdhd: Seq<u8>, hdlr: Seq<u8>, stbl: Seq<u8>)
    requires
        written_trak(tkhd, mdhd, hdlr, stbl).len() <= u32::MAX,
    ensures
        ({
            let trak = written_trak(tkhd, mdhd, hdlr, stbl);
            &&& found(trak, TKHD) == Some(tkhd)
            &&& found(trak, MDIA) matches Some(mdia) && found(mdia, MDHD) == Some(mdhd) && found(
                mdia,
                HDLR,
            ) == Some(hdlr) && found(mdia, STBL) == Some(stbl)
        }),
{
    let inner = box_bytes(STBL, stbl);
    let last = box_bytes(MINF, inner);
    let rest = box_bytes(HDLR, hdlr) + last;
    let mdia = box_bytes(MDHD, mdhd) + rest;
    lemma_find_cons(TKHD, tkhd, box_bytes(MDIA, mdia), TKHD);
    lemma_find_cons(TKHD, tkhd, box_bytes(MDIA, mdia), MDIA);
    lemma_find_one(MDIA, mdia, MDIA);
    lemma_find_cons(MDHD, mdhd, rest, MDHD);
    lemma_find_cons(MDHD, mdhd, rest, HDLR);
    lemma_find_cons(HDLR, hdlr, last, HDLR);
    lemma_find_cons(MDHD, mdhd, rest, STBL);
    lemma_find_cons(HDLR, hdlr, last, STBL);
    lemma_find_one(MINF, inner, STBL);
    lemma_find_one(STBL, stbl, STBL);
}

/// A written track is read back whole: what its headers say, its sample description byte
/// for byte, the samples of its table, and as its duration the sum of theirs. A timescale
/// of 0 counts as 1. Tracks without samples and tracks that are neither video nor audio are
/// left out.
#[verifier::rlimit(40)]
pub proof fn law_track_reads_back(
    tkhd: Seq<u8>,
    mdhd: Seq<u8>,
    hdlr: Seq<u8>,
    stbl: Seq<u8>,
    stsd: Seq<u8>,
    samples: Seq<Sample>,
    id: u32,
    width: u32,
    height: u32,
    timescale: u32,
    language: u16,
)
    requires
        written_trak(tkhd, mdhd, hdlr, stbl).len() <= u32::MAX,
        track_header(tkhd) == Some((id, width, height)),
        media_header(mdhd) == Some((timescale, language)),
        found(stbl, STSD) == Some(stsd),
        table_samples(stbl) == Ok::<Seq<Sample>, Invalid>(samples),
    ensures
        handler_kind(hdlr) is Other || samples.len() == 0 ==> described_track(
            written_trak(tkhd, mdhd, hdlr, stbl),
        ) == Ok::<Option<TrackView>, Invalid>(None),
        !(handler_kind(hdlr) is Other) && samples.len() > 0 ==> (described_track(
            written_trak(tkhd, mdhd, hdlr, stbl),
        ) matches Ok(Some(t)) && {
            &&& t.id == id
            &&& t.kind == handler_kind(hdlr)
            &&& t.timescale == timescale || (timescale == 0 && t.timescale == 1)
            &&& t.timescale > 0
            &&& t.width == width
            &&& t.height == height
            &&& t.language == language
            &&& t.stsd == stsd
            &&& t.samples == samples
            &&& t.duration == samples.last().dts + samples.last().duration
        }),
{
    lemma_written_trak(tkhd, mdhd, hdlr, stbl);
    lemma_table_duration(stbl);
}

/// The tracks of a movie keep the order of their boxes, the first defect counts, and what
/// is left out leaves no trace.
pub proof fn law_tracks_keep_their_order(a: Seq<Seq<u8>>, b: Seq<Seq<u8>>, trak: Seq<u8>)
    ensures
        described_tracks(Seq::empty()) == Ok::<Seq<TrackView>, Invalid>(Seq::empty()),
        described_tracks(seq![trak]) == (match described_track(trak) {
            Ok(Some(t)) => Ok::<Seq<TrackView>, Invalid>(seq![t]),
            Ok(None) => Ok(Seq::empty()),
            Err(e) => Err(e),
        }),
        described_tracks(a + b) == (match (described_tracks(a), described_tracks(b)) {
            (Ok(x), Ok(y)) => Ok::<Seq<TrackView>, Invalid>(x + y),
            (Ok(_), Err(e)) => Err(e),
            (Err(e), _) => Err(e),
        }),
{
    let none = Seq::<TrackView>::empty();
    assert(seq![trak].drop_last() =~= Seq::empty());
    assert(described_tracks(Seq::<Seq<u8>>::empty()) == Ok::<Seq<TrackView>, Invalid>(none));
    if let Ok(Some(t)) = described_track(trak) {
        assert(none.push(t) =~= seq![t]);
    }
    lemma_tracks_append(a, b);
}

proof fn lemma_tracks_append(a: Seq<Seq<u8>>, b: Seq<Seq<u8>>)
    ensures
        described_tracks(a + b) == (match (described_tracks(a), described_tracks(b)) {
            (Ok(x), Ok(y)) => Ok::<Seq<TrackView>, Invalid>(x + y),
            (Ok(_), Err(e)) => Err(e),
            (Err(e), _) => Err(e),
        }),
    decreases b.len(),
{
    if b.len() == 0 {
        assert(a + b =~= a);
        if let Ok(x) = described_tracks(a) {
            assert(x + Seq::<TrackView>::empty() =~= x);
        }
    } else {
        let rest = b.drop_last();
        lemma_tracks_append(a, rest);
        assert((a + b).drop_last() =~= a + rest);
        assert((a + b).last() == b.last());
        let last = described_track(b.last());
        if let (Ok(x), Ok(y), Ok(Some(t))) = (described_tracks(a), described_tracks(rest), last) {
            assert((x + y).push(t) =~= x + y.push(t));
        }
    }
}

/// A written movie is read back: its timescale, with 0 taken for 1, and the tracks that its
/// `trak` boxes describe. A movie without tracks is refused.
pub proof fn law_movie_reads_back(
    mvhd: Seq<u8>,
    timescale: u32,
    traks: Seq<Seq<u8>>,
    tracks: Seq<TrackView>,
)
    requires
        (box_bytes(MVHD, mvhd) + box_list(TRAK, traks)).len() <= u32::MAX,
        movie_timescale(mvhd) == Some(timescale),
        described_tracks(traks) == Ok::<Seq<TrackView>, Invalid>(tracks),
    ensures
        ({
            let moov = box_bytes(MVHD, mvhd) + box_list(TRAK, traks);
            &&& tracks.len() == 0 ==> described_movie(moov) == Err::<Mp4View, Invalid>(
                Invalid::NoTrack,
            )
            &&& tracks.len() > 0 && timescale > 0 ==> described_movie(moov) == Ok::<
                Mp4View,
                Invalid,
            >((Mp4View { timescale, tracks }))
            &&& tracks.len() > 0 && timescale == 0 ==> described_movie(moov) == Ok::<
                Mp4View,
                Invalid,
            >((Mp4View { timescale: 1, tracks }))
        }),
{
    let list = box_list(TRAK, traks);
    let none = Seq::<u8>::empty();
    lemma_find_cons(MVHD, mvhd, list, MVHD);
    lemma_boxes_cons(MVHD, mvhd, list, TRAK);
    lemma_box_list_len(TRAK, traks);
    lemma_box_list(TRAK, traks, none);
    assert(list + none =~= list);
    assert(boxes_from(none, 0, TRAK) =~= Seq::empty());
    assert(traks + Seq::<Seq<u8>>::empty() =~= traks);
}

/// A movie or a track that lacks one of its boxes is refused, and the error names the box.
pub proof fn law_missing_headers_are_named(
    moov: Seq<u8>,
    trak: Seq<u8>,
    tkhd: Seq<u8>,
    mdia: Seq<u8>,
    mdhd: Seq<u8>,
    hdlr: Seq<u8>,
    stbl: Seq<u8>,
)
    ensures
        found(moov, MVHD) is None ==> described_movie(moov) == Err::<Mp4View, Invalid>(
            Invalid::NoMvhd,
        ),
        found(trak, TKHD) is None ==> described_track(trak) == Err::<Option<TrackView>, Invalid>(
            Invalid::NoTkhd,
        ),
        found(trak, TKHD) == Some(tkhd) && track_header(tkhd) is Some ==> {
            &&& found(trak, MDIA) is None ==> described_track(trak) == Err::<
                Option<TrackView>,
                Invalid,
            >(Invalid::NoMdia)
            &&& found(trak, MDIA) == Some(mdia) && found(mdia, MDHD) is None ==> described_track(
                trak,
            ) == Err::<Option<TrackView>, Invalid>(Invalid::NoMdhd)
            &&& found(trak, MDIA) == Some(mdia) && found(mdia, MDHD) == Some(mdhd) && media_header(
                mdhd,
            ) is Some ==> {
                &&& found(mdia, HDLR) is None ==> described_track(trak) == Err::<
                    Option<TrackView>,
                    Invalid,
                >(Invalid::NoHdlr)
                &&& found(mdia, HDLR) == Some(hdlr) && !(handler_kind(hdlr) is Other) ==> {
                    &&& found(mdia, STBL) is None ==> described_track(trak) == Err::<
                        Option<TrackView>,
                        Invalid,
                    >(Invalid::NoStbl)
                    &&& found(mdia, STBL) == Some(stbl) && found(stbl, STSD) is None
                        ==> described_track(trak) == Err::<Option<TrackView>, Invalid>(
                        Invalid::NoStsd,
                    )
                }
            }
        },
{
}

} // verus!
