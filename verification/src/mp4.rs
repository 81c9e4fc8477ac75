//! Minimal MP4 (ISO BMFF) demuxer.
//!
//! Only what HLS packaging needs: the movie header, one entry per track and the
//! flattened sample table (offset, size, timing, sync flag). Sample *data* is
//! never read here, only located, so parsing a multi-gigabyte file costs the
//! size of its `moov` box.

use vstd::prelude::*;
use vstd::slice::slice_to_vec;

use crate::boxes::{
    be16, be32, boxes, boxes_from, find_box, found, u16be, u32be, version, version_of, HDLR, MDHD,
    MDIA, MVHD, STBL, STSD, TKHD, TRAK,
};
use crate::error::Invalid;
use crate::samples::{build_samples, lemma_table_duration, table_samples};

verus! {

pub const VIDE: u32 = 0x7669_6465;
pub const SOUN: u32 = 0x736f_756e;

#[derive(Clone, Copy, PartialEq, Eq, Structural, Debug)]
pub enum TrackKind {
    Video,
    Audio,
    Other,
}

/// One sample of a track: where its bytes lie and when it is decoded.
#[derive(Clone, Copy)]
pub struct Sample {
    /// Absolute byte offset in the source file.
    pub offset: u64,
    pub size: u32,
    /// Decode timestamp, in the track timescale.
    pub dts: u64,
    /// Decode duration, in the track timescale.
    pub duration: u32,
    /// Composition offset (`ctts`), in the track timescale.
    pub cts_offset: i32,
    pub is_sync: bool,
}

pub struct Track {
    pub id: u32,
    pub kind: TrackKind,
    pub timescale: u32,
    /// Sum of the sample durations, in the track timescale.
    pub duration: u64,
    /// 16.16 fixed point values straight out of `tkhd`.
    pub width: u32,
    pub height: u32,
    pub language: u16,
    /// Raw payload of the `stsd` box, replayed verbatim into the init segment.
    pub stsd: Vec<u8>,
    pub samples: Vec<Sample>,
}

/// What a [`Track`] holds.
pub struct TrackView {
    pub id: u32,
    pub kind: TrackKind,
    pub timescale: u32,
    pub duration: u64,
    pub width: u32,
    pub height: u32,
    pub language: u16,
    pub stsd: Seq<u8>,
    pub samples: Seq<Sample>,
}

impl View for Track {
    type V = TrackView;

    open spec fn view(&self) -> TrackView {
        TrackView {
            id: self.id,
            kind: self.kind,
            timescale: self.timescale,
            duration: self.duration,
            width: self.width,
            height: self.height,
            language: self.language,
            stsd: self.stsd@,
            samples: self.samples@,
        }
    }
}

pub struct Mp4 {
    pub timescale: u32,
    pub tracks: Vec<Track>,
}

/// What an [`Mp4`] holds.
pub struct Mp4View {
    pub timescale: u32,
    pub tracks: Seq<TrackView>,
}

impl View for Mp4 {
    type V = Mp4View;

    open spec fn view(&self) -> Mp4View {
        Mp4View { timescale: self.timescale, tracks: self.tracks@.map_values(|t: Track| t@) }
    }
}

/// Whether `p` parts the samples that are decoded before `dts` from the rest.
pub open spec fn parted_at(samples: Seq<Sample>, dts: u64, p: int) -> bool {
    &&& 0 <= p <= samples.len()
    &&& forall|i: int| 0 <= i < p ==> (#[trigger] samples[i]).dts < dts
    &&& forall|i: int| p <= i < samples.len() ==> (#[trigger] samples[i]).dts >= dts
}

/// Whether the samples are in decode order.
pub open spec fn in_decode_order(samples: Seq<Sample>) -> bool {
    forall|i: int, j: int| 0 <= i <= j < samples.len() ==> samples[i].dts <= samples[j].dts
}

impl Track {
    /// Index of the first sample whose decode time is at or after `dts`, by binary
    /// search. Samples that are not parted by `dts` give an index that means
    /// nothing.
    pub fn sample_at(&self, dts: u64) -> (r: usize)
        ensures
            r <= self@.samples.len(),
            forall|p: int| #[trigger] parted_at(self@.samples, dts, p) ==> r == p,
            in_decode_order(self@.samples) ==> parted_at(self@.samples, dts, r as int),
    {
        let mut low: usize = 0;
        let mut high: usize = self.samples.len();
        while low < high
            invariant
                low <= high <= self@.samples.len(),
                forall|p: int| #[trigger] parted_at(self@.samples, dts, p) ==> low <= p <= high,
                in_decode_order(self@.samples) ==> {
                    &&& forall|i: int| 0 <= i < low ==> (#[trigger] self@.samples[i]).dts < dts
                    &&& forall|i: int|
                        high <= i < self@.samples.len() ==> (#[trigger] self@.samples[i]).dts >= dts
                },
            decreases high - low,
        {
            let mid: usize = low + (high - low) / 2;
            assert(self@.samples[mid as int] == self.samples@[mid as int]);
            if self.samples[mid].dts < dts {
                low = mid + 1;
            } else {
                high = mid;
            }
        }
        low
    }
}

/// The position of the first video track from `i` on.
pub open spec fn video_from(tracks: Seq<TrackView>, i: int) -> Option<int>
    decreases tracks.len() - i,
{
    if i >= tracks.len() {
        None
    } else if tracks[i].kind == TrackKind::Video {
        Some(i)
    } else {
        video_from(tracks, i + 1)
    }
}

/// The position of the first video track.
pub open spec fn first_video(tracks: Seq<TrackView>) -> Option<int> {
    video_from(tracks, 0)
}

impl Mp4 {
    /// Finds the position of the first video track.
    pub fn video_index(&self) -> (r: Option<usize>)
        ensures
            match r {
                Some(i) => {
                    &&& first_video(self@.tracks) == Some(i as int)
                    &&& i < self@.tracks.len()
                    &&& self@.tracks[i as int].kind == TrackKind::Video
                },
                None => first_video(self@.tracks) is None,
            },
    {
        let mut i: usize = 0;
        while i < self.tracks.len()
            invariant
                i <= self.tracks@.len() == self@.tracks.len(),
                video_from(self@.tracks, i as int) == first_video(self@.tracks),
            decreases self.tracks@.len() - i,
        {
            if self.tracks[i].kind == TrackKind::Video {
                return Some(i);
            }
            i = i + 1;
        }
        None
    }

    /// The first video track.
    pub fn video(&self) -> (r: Option<&Track>)
        ensures
            match r {
                Some(t) => first_video(self@.tracks) is Some && t@
                    == self@.tracks[first_video(self@.tracks)->0],
                None => first_video(self@.tracks) is None,
            },
    {
        match self.video_index() {
            Some(i) => Some(&self.tracks[i]),
            None => None,
        }
    }
}

// --- moov ----------------------------------------------------------------

/// `timescale`, with 0 taken for 1.
pub open spec fn at_least_one(timescale: u32) -> u32 {
    if timescale == 0 {
        1
    } else {
        timescale
    }
}

/// The kind of track that an `hdlr` box declares.
pub open spec fn handler_kind(hdlr: Seq<u8>) -> TrackKind {
    if hdlr.len() < 12 {
        TrackKind::Other
    } else if be32(hdlr, 8) == VIDE {
        TrackKind::Video
    } else if be32(hdlr, 8) == SOUN {
        TrackKind::Audio
    } else {
        TrackKind::Other
    }
}

/// The track identifier, width and height of a `tkhd` box.
pub open spec fn track_header(tkhd: Seq<u8>) -> Option<(u32, u32, u32)> {
    if version_of(tkhd) == 0 {
        if tkhd.len() < 84 {
            None
        } else {
            Some((be32(tkhd, 12), be32(tkhd, 76), be32(tkhd, 80)))
        }
    } else if tkhd.len() < 96 {
        None
    } else {
        Some((be32(tkhd, 20), be32(tkhd, 88), be32(tkhd, 92)))
    }
}

/// The timescale and language of an `mdhd` box.
pub open spec fn media_header(mdhd: Seq<u8>) -> Option<(u32, u16)> {
    if version_of(mdhd) == 0 {
        if mdhd.len() < 22 {
            None
        } else {
            Some((be32(mdhd, 12), be16(mdhd, 20)))
        }
    } else if mdhd.len() < 34 {
        None
    } else {
        Some((be32(mdhd, 20), be16(mdhd, 32)))
    }
}

/// The timescale of an `mvhd` box.
pub open spec fn movie_timescale(mvhd: Seq<u8>) -> Option<u32> {
    if version_of(mvhd) == 0 {
        if mvhd.len() < 16 {
            None
        } else {
            Some(be32(mvhd, 12))
        }
    } else if mvhd.len() < 24 {
        None
    } else {
        Some(be32(mvhd, 20))
    }
}

/// The track that a `trak` box describes. Tracks that are neither video nor audio
/// and tracks without samples are dropped.
pub open spec fn described_track(trak: Seq<u8>) -> Result<Option<TrackView>, Invalid> {
    match found(trak, TKHD) {
        None => Err(Invalid::NoTkhd),
        Some(tkhd) => match track_header(tkhd) {
            None => Err(Invalid::TruncatedBox),
            Some((id, width, height)) => match found(trak, MDIA) {
                None => Err(Invalid::NoMdia),
                Some(mdia) => described_media(mdia, id, width, height),
            },
        },
    }
}

/// The track that an `mdia` box describes, given what the track header says.
pub open spec fn described_media(mdia: Seq<u8>, id: u32, width: u32, height: u32) -> Result<
    Option<TrackView>,
    Invalid,
> {
    match found(mdia, MDHD) {
        None => Err(Invalid::NoMdhd),
        Some(mdhd) => match media_header(mdhd) {
            None => Err(Invalid::TruncatedBox),
            Some((timescale, language)) => match found(mdia, HDLR) {
                None => Err(Invalid::NoHdlr),
                Some(hdlr) => if handler_kind(hdlr) == TrackKind::Other {
                    Ok(None)
                } else {
                    match found(mdia, STBL) {
                        None => Err(Invalid::NoStbl),
                        Some(stbl) => match found(stbl, STSD) {
                            None => Err(Invalid::NoStsd),
                            Some(stsd) => match table_samples(stbl) {
                                Err(e) => Err(e),
                                Ok(samples) => if samples.len() == 0 {
                                    Ok(None)
                                } else {
                                    Ok(
                                        Some(
                                            TrackView {
                                                id,
                                                kind: handler_kind(hdlr),
                                                timescale: at_least_one(timescale),
                                                duration: (samples.last().dts
                                                    + samples.last().duration) as u64,
                                                width,
                                                height,
                                                language,
                                                stsd,
                                                samples,
                                            },
                                        ),
                                    )
                                },
                            },
                        },
                    }
                },
            },
        },
    }
}

/// The tracks that a list of `trak` boxes describes; the first defect wins.
pub open spec fn described_tracks(traks: Seq<Seq<u8>>) -> Result<Seq<TrackView>, Invalid>
    decreases traks.len(),
{
    if traks.len() == 0 {
        Ok(Seq::empty())
    } else {
        match (described_tracks(traks.drop_last()), described_track(traks.last())) {
            (Err(e), _) => Err(e),
            (Ok(_), Err(e)) => Err(e),
            (Ok(tracks), Ok(None)) => Ok(tracks),
            (Ok(tracks), Ok(Some(track))) => Ok(tracks.push(track)),
        }
    }
}

/// The movie that the payload of a `moov` box describes.
pub open spec fn described_movie(moov: Seq<u8>) -> Result<Mp4View, Invalid> {
    match found(moov, MVHD) {
        None => Err(Invalid::NoMvhd),
        Some(mvhd) => match movie_timescale(mvhd) {
            None => Err(Invalid::TruncatedBox),
            Some(timescale) => match described_tracks(boxes_from(moov, 0, TRAK)) {
                Err(e) => Err(e),
                Ok(tracks) => if tracks.len() == 0 {
                    Err(Invalid::NoTrack)
                } else {
                    Ok(Mp4View { timescale: at_least_one(timescale), tracks })
                },
            },
        },
    }
}

fn clamp_timescale(timescale: u32) -> (r: u32)
    ensures
        r == at_least_one(timescale),
{
    if timescale == 0 {
        1
    } else {
        timescale
    }
}

fn parse_media(mdia: &[u8], id: u32, width: u32, height: u32) -> (r: Result<Option<Track>, Invalid>)
    ensures
        match r {
            Ok(Some(t)) => described_media(mdia@, id, width, height) == Ok::<
                Option<TrackView>,
                Invalid,
            >(Some(t@)),
            Ok(None) => described_media(mdia@, id, width, height) == Ok::<
                Option<TrackView>,
                Invalid,
            >(None),
            Err(e) => described_media(mdia@, id, width, height) == Err::<
                Option<TrackView>,
                Invalid,
            >(e),
        },
{
    let mdhd = match find_box(mdia, MDHD) {
        Some(b) => b,
        None => return Err(Invalid::NoMdhd),
    };
    let (timescale, language): (u32, u16) = if version(mdhd) == 0 {
        (u32be(mdhd, 12)?, u16be(mdhd, 20)?)
    } else {
        (u32be(mdhd, 20)?, u16be(mdhd, 32)?)
    };
    let hdlr = match find_box(mdia, HDLR) {
        Some(b) => b,
        None => return Err(Invalid::NoHdlr),
    };
    // Subtitle, timed-metadata and chapter tracks are dropped: the packager has
    // no way to carry them and a player would reject the resulting segment.
    let kind: TrackKind = match u32be(hdlr, 8) {
        Ok(v) => if v == VIDE {
            TrackKind::Video
        } else if v == SOUN {
            TrackKind::Audio
        } else {
            return Ok(None);
        },
        Err(_) => return Ok(None),
    };
    let stbl = match find_box(mdia, STBL) {
        Some(b) => b,
        None => return Err(Invalid::NoStbl),
    };
    let stsd: Vec<u8> = match find_box(stbl, STSD) {
        Some(b) => slice_to_vec(b),
        None => return Err(Invalid::NoStsd),
    };
    let samples: Vec<Sample> = build_samples(stbl)?;
    if samples.len() == 0 {
        return Ok(None);
    }
    let last: Sample = samples[samples.len() - 1];
    proof {
        crate::samples::lemma_table_duration(stbl@);
    }
    let duration: u64 = last.dts + last.duration as u64;
    Ok(
        Some(
            Track {
                id,
                kind,
                timescale: clamp_timescale(timescale),
                duration,
                width,
                height,
                language,
                stsd,
                samples,
            },
        ),
    )
}

/// Parses one `trak` box.
pub fn parse_trak(trak: &[u8]) -> (r: Result<Option<Track>, Invalid>)
    ensures
        match r {
            Ok(Some(t)) => described_track(trak@) == Ok::<Option<TrackView>, Invalid>(Some(t@)),
            Ok(None) => described_track(trak@) == Ok::<Option<TrackView>, Invalid>(None),
            Err(e) => described_track(trak@) == Err::<Option<TrackView>, Invalid>(e),
        },
{
    let tkhd = match find_box(trak, TKHD) {
        Some(b) => b,
        None => return Err(Invalid::NoTkhd),
    };
    let (id, width, height): (u32, u32, u32) = if version(tkhd) == 0 {
        (u32be(tkhd, 12)?, u32be(tkhd, 76)?, u32be(tkhd, 80)?)
    } else {
        (u32be(tkhd, 20)?, u32be(tkhd, 88)?, u32be(tkhd, 92)?)
    };
    match find_box(trak, MDIA) {
        Some(mdia) => parse_media(mdia, id, width, height),
        None => Err(Invalid::NoMdia),
    }
}

/// Flattens every track's sample table out of the payload of a `moov` box.
pub fn parse_moov(moov: &[u8]) -> (r: Result<Mp4, Invalid>)
    ensures
        match r {
            Ok(mp4) => described_movie(moov@) == Ok::<Mp4View, Invalid>(mp4@),
            Err(e) => described_movie(moov@) == Err::<Mp4View, Invalid>(e),
        },
{
    let mvhd = match find_box(moov, MVHD) {
        Some(b) => b,
        None => return Err(Invalid::NoMvhd),
    };
    let timescale: u32 = if version(mvhd) == 0 {
        u32be(mvhd, 12)?
    } else {
        u32be(mvhd, 20)?
    };
    let traks: Vec<&[u8]> = boxes(moov, TRAK);
    let ghost bodies = boxes_from(moov@, 0, TRAK);
    let mut tracks: Vec<Track> = Vec::new();
    let mut i: usize = 0;
    assert(tracks@.map_values(|t: Track| t@) =~= Seq::empty());
    while i < traks.len()
        invariant
            i <= traks@.len() == bodies.len(),
            bodies == boxes_from(moov@, 0, TRAK),
            forall|j: int| 0 <= j < bodies.len() ==> (#[trigger] traks@[j])@ == bodies[j],
            found(moov@, MVHD) == Some(mvhd@),
            movie_timescale(mvhd@) == Some(timescale),
            described_tracks(bodies.take(i as int)) == Ok::<Seq<TrackView>, Invalid>(
                tracks@.map_values(|t: Track| t@),
            ),
        decreases traks@.len() - i,
    {
        let ghost before = tracks@.map_values(|t: Track| t@);
        assert(bodies.take(i + 1).drop_last() =~= bodies.take(i as int));
        assert(bodies.take(i + 1).last() == traks@[i as int]@);
        match parse_trak(traks[i]) {
            Ok(Some(track)) => {
                tracks.push(track);
                assert(tracks@.map_values(|t: Track| t@) =~= before.push(track@));
            },
            Ok(None) => {},
            Err(e) => {
                proof {
                    lemma_first_defect(bodies, i + 1);
                }
                return Err(e);
            },
        }
        i = i + 1;
    }
    assert(bodies.take(bodies.len() as int) =~= bodies);
    if tracks.len() == 0 {
        return Err(Invalid::NoTrack);
    }
    Ok(Mp4 { timescale: clamp_timescale(timescale), tracks })
}

proof fn lemma_first_defect(traks: Seq<Seq<u8>>, n: int)
    requires
        0 <= n <= traks.len(),
        described_tracks(traks.take(n)) is Err,
    ensures
        described_tracks(traks) == described_tracks(traks.take(n)),
    decreases traks.len() - n,
{
    if n < traks.len() {
        assert(traks.take(n + 1).drop_last() =~= traks.take(n));
        lemma_first_defect(traks, n + 1);
    } else {
        assert(traks.take(n) =~= traks);
    }
}

// --- what parsing promises -----------------------------------------------

/// The durations of all samples together.
pub open spec fn durations(samples: Seq<Sample>) -> nat
    decreases samples.len(),
{
    if samples.len() == 0 {
        0
    } else {
        durations(samples.drop_last()) + samples.last().duration as nat
    }
}

/// What holds of every track that parsing keeps: it is video or audio, it has a
/// sample, its samples are timed back to back from 0, and its duration is the sum
/// of theirs.
pub open spec fn sound_track(t: TrackView) -> bool {
    &&& t.kind == TrackKind::Video || t.kind == TrackKind::Audio
    &&& t.timescale >= 1
    &&& t.samples.len() > 0
    &&& forall|i: int|
        0 <= i < t.samples.len() ==> (#[trigger] t.samples[i]).dts == durations(t.samples.take(i))
    &&& in_decode_order(t.samples)
    &&& t.duration == durations(t.samples)
}

proof fn lemma_durations_take(samples: Seq<Sample>, i: int)
    requires
        0 <= i < samples.len(),
    ensures
        durations(samples.take(i + 1)) == durations(samples.take(i)) + samples[i].duration,
{
    assert(samples.take(i + 1).drop_last() =~= samples.take(i));
}

proof fn lemma_back_to_back(samples: Seq<Sample>, i: int)
    requires
        0 <= i < samples.len(),
        samples[0].dts == 0,
        forall|k: int|
            0 < k < samples.len() ==> (#[trigger] samples[k]).dts == samples[k - 1].dts
                + samples[k - 1].duration,
    ensures
        samples[i].dts == durations(samples.take(i)),
    decreases i,
{
    if i > 0 {
        lemma_back_to_back(samples, i - 1);
        lemma_durations_take(samples, i - 1);
    }
}

proof fn lemma_in_decode_order(samples: Seq<Sample>, i: int, j: int)
    requires
        0 <= i <= j < samples.len(),
        forall|k: int|
            0 < k < samples.len() ==> (#[trigger] samples[k]).dts == samples[k - 1].dts
                + samples[k - 1].duration,
    ensures
        samples[i].dts <= samples[j].dts,
    decreases j - i,
{
    if i < j {
        lemma_in_decode_order(samples, i, j - 1);
        assert(samples[j].dts == samples[j - 1].dts + samples[j - 1].duration);
    }
}

proof fn lemma_media_is_sound(mdia: Seq<u8>, id: u32, width: u32, height: u32)
    ensures
        match described_media(mdia, id, width, height) {
            Ok(Some(t)) => sound_track(t),
            _ => true,
        },
{
    if let Ok(Some(t)) = described_media(mdia, id, width, height) {
        let samples = t.samples;
        lemma_table_duration(found(mdia, STBL)->0);
        assert forall|i: int| 0 <= i < samples.len() implies (#[trigger] samples[i]).dts
            == durations(samples.take(i)) by {
            lemma_back_to_back(samples, i);
        }
        assert forall|i: int, j: int| 0 <= i <= j < samples.len() implies samples[i].dts
            <= samples[j].dts by {
            lemma_in_decode_order(samples, i, j);
        }
        lemma_durations_take(samples, samples.len() - 1);
        assert(samples.take(samples.len() as int) =~= samples);
    }
}

proof fn lemma_tracks_are_sound(traks: Seq<Seq<u8>>)
    ensures
        match described_tracks(traks) {
            Ok(tracks) => forall|i: int| 0 <= i < tracks.len() ==> sound_track(#[trigger] tracks[i]),
            Err(_) => true,
        },
    decreases traks.len(),
{
    if traks.len() > 0 {
        lemma_tracks_are_sound(traks.drop_last());
        let trak = traks.last();
        if let (Some(tkhd), Some(mdia)) = (found(trak, TKHD), found(trak, MDIA)) {
            if let Some((id, width, height)) = track_header(tkhd) {
                lemma_media_is_sound(mdia, id, width, height);
            }
        }
    }
}

/// A movie that parses has a track, and every track of it is sound: video or audio
/// with at least one sample, timed back to back from 0 in decode order, as long as
/// its samples together, with a timescale that can be divided by.
pub proof fn law_parsed_movies_are_sound(moov: Seq<u8>)
    ensures
        match described_movie(moov) {
            Ok(movie) => {
                &&& movie.timescale >= 1
                &&& movie.tracks.len() > 0
                &&& forall|i: int|
                    0 <= i < movie.tracks.len() ==> sound_track(#[trigger] movie.tracks[i])
            },
            Err(_) => true,
        },
{
    lemma_tracks_are_sound(boxes_from(moov, 0, TRAK));
}

} // verus!
