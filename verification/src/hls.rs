//! HLS packaging on top of the demuxer and the fMP4 writer.
//!
//! A source MP4 is cut into segments at video keyframes, described by an M3U8
//! playlist, and each segment is remuxed into CMAF on demand. Nothing is
//! written to disk: the only state kept is the parsed sample table.

use vstd::prelude::*;
use vstd::string::*;

use crate::codec::codec_text;
use crate::mp4::{first_video, Mp4, Mp4View, TrackView};
use crate::plan::{segment_views, Segment, SegmentView};
use crate::text::{decimal, padded, push_decimal, push_padded};

verus! {

/// A source file, parsed and cut into segments.
pub struct Stream {
    pub mp4: Mp4,
    pub init: Vec<u8>,
    pub segments: Vec<Segment>,
}

/// What a [`Stream`] holds.
pub struct StreamView {
    pub mp4: Mp4View,
    pub init: Seq<u8>,
    pub segments: Seq<SegmentView>,
}

impl View for Stream {
    type V = StreamView;

    open spec fn view(&self) -> StreamView {
        StreamView {
            mp4: self.mp4@,
            init: self.init@,
            segments: segment_views(self.segments@),
        }
    }
}

// --- playlists -----------------------------------------------------------

/// The longest of `segments`, in seconds rounded up, and at least 1.
pub open spec fn longest(segments: Seq<SegmentView>) -> u64
    decreases segments.len(),
{
    if segments.len() == 0 {
        1
    } else {
        let rest = longest(segments.drop_last());
        if segments.last().duration.ceiling > rest {
            segments.last().duration.ceiling
        } else {
            rest
        }
    }
}

/// Seconds with six decimals, for a number of microseconds.
pub open spec fn seconds_text(micros: nat) -> Seq<char> {
    decimal(micros / 1_000_000) + "."@ + padded(micros % 1_000_000, 6)
}

/// The display size of the first video track, where it has one. `tkhd` stores it as
/// 16.16 fixed point.
pub open spec fn resolution_text(tracks: Seq<TrackView>) -> Seq<char> {
    match first_video(tracks) {
        Some(i) => {
            let w = tracks[i].width / 0x1_0000;
            let h = tracks[i].height / 0x1_0000;
            if w > 0 && h > 0 {
                ",RESOLUTION="@ + decimal(w as nat) + "x"@ + decimal(h as nat)
            } else {
                Seq::empty()
            }
        },
        None => Seq::empty(),
    }
}

/// The codec identifiers of the tracks that have one, in track order.
pub open spec fn codec_list(tracks: Seq<TrackView>) -> Seq<Seq<char>>
    decreases tracks.len(),
{
    if tracks.len() == 0 {
        Seq::empty()
    } else {
        match codec_text(tracks.last().stsd) {
            Some(codec) => codec_list(tracks.drop_last()).push(codec),
            None => codec_list(tracks.drop_last()),
        }
    }
}

/// `parts` with a comma between each two.
pub open spec fn joined(parts: Seq<Seq<char>>) -> Seq<char>
    decreases parts.len(),
{
    if parts.len() == 0 {
        Seq::empty()
    } else if parts.len() == 1 {
        parts[0]
    } else {
        joined(parts.drop_last()) + ","@ + parts.last()
    }
}

/// The `CODECS` attribute, where there is a codec to name.
pub open spec fn codecs_text(tracks: Seq<TrackView>) -> Seq<char> {
    if codec_list(tracks).len() == 0 {
        Seq::empty()
    } else {
        ",CODECS=\""@ + joined(codec_list(tracks)) + "\""@
    }
}

/// The multivariant playlist of a movie with average bitrate `bandwidth`.
pub open spec fn master_text(m: Mp4View, base: Seq<char>, bandwidth: u64) -> Seq<char> {
    "#EXTM3U\n#EXT-X-VERSION:7\n"@ + "#EXT-X-INDEPENDENT-SEGMENTS\n"@
        + "#EXT-X-STREAM-INF:BANDWIDTH="@ + decimal(bandwidth as nat) + resolution_text(m.tracks)
        + codecs_text(m.tracks) + "\n"@ + base + "/index.m3u8\n"@
}

/// The lines of segment `i` in the media playlist.
pub open spec fn entry_text(segment: SegmentView, base: Seq<char>, i: nat) -> Seq<char> {
    "#EXTINF:"@ + seconds_text(segment.duration.micros as nat) + ",\n"@ + base + "/segment-"@
        + decimal(i) + ".m4s\n"@
}

/// The lines of all segments in the media playlist.
pub open spec fn entries_text(segments: Seq<SegmentView>, base: Seq<char>) -> Seq<char>
    decreases segments.len(),
{
    if segments.len() == 0 {
        Seq::empty()
    } else {
        entries_text(segments.drop_last(), base) + entry_text(
            segments.last(),
            base,
            (segments.len() - 1) as nat,
        )
    }
}

/// The media playlist that lists every segment of the (VOD) stream.
pub open spec fn media_text(segments: Seq<SegmentView>, base: Seq<char>) -> Seq<char> {
    "#EXTM3U\n#EXT-X-VERSION:7\n"@ + "#EXT-X-PLAYLIST-TYPE:VOD\n"@ + "#EXT-X-TARGETDURATION:"@
        + decimal(longest(segments) as nat) + "\n"@ + "#EXT-X-MEDIA-SEQUENCE:0\n"@
        + "#EXT-X-MAP:URI=\""@ + base + "/init.mp4\"\n"@ + entries_text(segments, base)
        + "#EXT-X-ENDLIST\n"@
}

proof fn lemma_chars(a: Seq<char>, b: Seq<char>, c: Seq<char>)
    ensures
        (a + b) + c == a + (b + c),
{
    assert((a + b) + c =~= a + (b + c));
}

fn push_resolution(out: &mut String, mp4: &Mp4)
    ensures
        final(out)@ == old(out)@ + resolution_text(mp4@.tracks),
{
    if let Some(video) = mp4.video() {
        let w: u32 = video.width / 0x1_0000;
        let h: u32 = video.height / 0x1_0000;
        if w > 0 && h > 0 {
            out.append(",RESOLUTION=");
            push_decimal(out, w as u128);
            out.append("x");
            push_decimal(out, h as u128);
        }
    }
    assert(out@ =~= old(out)@ + resolution_text(mp4@.tracks));
}

fn push_codecs(out: &mut String, mp4: &Mp4)
    ensures
        final(out)@ == old(out)@ + codecs_text(mp4@.tracks),
{
    let ghost tracks = mp4@.tracks;
    let mut codecs: String = String::new();
    let mut count: usize = 0;
    let mut i: usize = 0;
    assert(codecs@ =~= joined(codec_list(tracks.take(0))));
    while i < mp4.tracks.len()
        invariant
            i <= mp4.tracks@.len() == tracks.len(),
            tracks == mp4@.tracks,
            count <= i,
            count == codec_list(tracks.take(i as int)).len(),
            codecs@ == joined(codec_list(tracks.take(i as int))),
        decreases mp4.tracks@.len() - i,
    {
        assert(tracks.take(i + 1).drop_last() =~= tracks.take(i as int));
        assert(tracks[i as int] == mp4.tracks@[i as int]@);
        let ghost before = codec_list(tracks.take(i as int));
        if let Some(codec) = mp4.tracks[i].codec() {
            if count > 0 {
                codecs.append(",");
            }
            codecs.append(codec.as_str());
            count = count + 1;
            proof {
                let now = before.push(codec@);
                assert(now.drop_last() =~= before);
                assert(codecs@ =~= joined(now));
            }
        }
        i = i + 1;
    }
    assert(tracks.take(i as int) =~= tracks);
    if count > 0 {
        out.append(",CODECS=\"");
        out.append(codecs.as_str());
        out.append("\"");
    }
    assert(out@ =~= old(out)@ + codecs_text(tracks));
}

fn push_entry(out: &mut String, segment: &Segment, base: &str, i: usize)
    ensures
        final(out)@ == old(out)@ + entry_text(segment@, base@, i as nat),
{
    let micros: u128 = segment.duration.micros;
    let mut line: String = "#EXTINF:".to_owned();
    let mut seconds: String = String::new();
    push_decimal(&mut seconds, micros / 1_000_000);
    seconds.append(".");
    push_padded(&mut seconds, micros % 1_000_000, 6);
    assert(seconds@ =~= seconds_text(micros as nat));
    line.append(seconds.as_str());
    line.append(",\n");
    line.append(base);
    line.append("/segment-");
    push_decimal(&mut line, i as u128);
    line.append(".m4s\n");
    out.append(line.as_str());
}

impl Stream {
    /// Longest segment, rounded up, for `EXT-X-TARGETDURATION`.
    pub fn target_duration(&self) -> (r: u64)
        ensures
            r == longest(self@.segments),
    {
        let ghost segments = self@.segments;
        let mut most: u64 = 1;
        let mut i: usize = 0;
        while i < self.segments.len()
            invariant
                i <= self.segments@.len() == segments.len(),
                segments == self@.segments,
                most == longest(segments.take(i as int)),
            decreases self.segments@.len() - i,
        {
            assert(segments.take(i + 1).drop_last() =~= segments.take(i as int));
            assert(segments[i as int] == self.segments@[i as int]@);
            if self.segments[i].duration.ceiling > most {
                most = self.segments[i].duration.ceiling;
            }
            i = i + 1;
        }
        assert(segments.take(i as int) =~= segments);
        most
    }

    /// Multivariant playlist. A remux exposes exactly one rendition, but players
    /// and CDNs still expect this entry point.
    pub fn master_playlist(&self, base: &str, bandwidth: u64) -> (r: String)
        ensures
            r@ == master_text(self@.mp4, base@, bandwidth),
    {
        let mut out: String = "#EXTM3U\n#EXT-X-VERSION:7\n".to_owned();
        out.append("#EXT-X-INDEPENDENT-SEGMENTS\n");
        out.append("#EXT-X-STREAM-INF:BANDWIDTH=");
        push_decimal(&mut out, bandwidth as u128);
        push_resolution(&mut out, &self.mp4);
        push_codecs(&mut out, &self.mp4);
        out.append("\n");
        out.append(base);
        out.append("/index.m3u8\n");
        out
    }

    /// Media playlist listing every segment of the (VOD) stream.
    pub fn media_playlist(&self, base: &str) -> (r: String)
        ensures
            r@ == media_text(self@.segments, base@),
    {
        let mut out: String = "#EXTM3U\n#EXT-X-VERSION:7\n".to_owned();
        out.append("#EXT-X-PLAYLIST-TYPE:VOD\n");
        out.append("#EXT-X-TARGETDURATION:");
        push_decimal(&mut out, self.target_duration() as u128);
        out.append("\n");
        out.append("#EXT-X-MEDIA-SEQUENCE:0\n");
        out.append("#EXT-X-MAP:URI=\"");
        out.append(base);
        out.append("/init.mp4\"\n");
        let ghost head = out@;
        let ghost segments = self@.segments;
        let mut i: usize = 0;
        assert(out@ =~= head + entries_text(segments.take(0), base@));
        while i < self.segments.len()
            invariant
                i <= self.segments@.len() == segments.len(),
                segments == self@.segments,
                out@ == head + entries_text(segments.take(i as int), base@),
            decreases self.segments@.len() - i,
        {
            push_entry(&mut out, &self.segments[i], base, i);
            proof {
                assert(segments.take(i + 1).drop_last() =~= segments.take(i as int));
                assert(segments[i as int] == self.segments@[i as int]@);
                lemma_chars(
                    head,
                    entries_text(segments.take(i as int), base@),
                    entry_text(segments[i as int], base@, i as nat),
                );
            }
            i = i + 1;
        }
        assert(segments.take(i as int) =~= segments);
        out.append("#EXT-X-ENDLIST\n");
        out
    }
}

/// No segment is longer than the target duration that the media playlist states, in
/// seconds rounded up, and the target is at least 1.
pub proof fn law_target_duration_bounds_every_segment(segments: Seq<SegmentView>, i: int)
    requires
        0 <= i < segments.len(),
    ensures
        segments[i].duration.ceiling <= longest(segments),
        longest(segments) >= 1,
    decreases segments.len(),
{
    if i < segments.len() - 1 {
        assert(segments.drop_last()[i] == segments[i]);
        law_target_duration_bounds_every_segment(segments.drop_last(), i);
    } else if segments.len() > 1 {
        law_target_duration_bounds_every_segment(segments.drop_last(), 0);
    }
}

} // verus!
