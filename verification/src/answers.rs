//! What the server's operations answer, told by what goes in and what comes out.

use std::ops::Range;

use vstd::prelude::*;
use vstd::relations::sorted_by;
use vstd::utf8::{
    decode_utf8, encode_utf8, encode_utf8_decode_utf8, encode_utf8_valid_utf8, is_ascii_chars,
    is_ascii_chars_encode_utf8, valid_utf8,
};

use crate::api::{base_path, resource, segment_index, Failure, Resource};
use crate::boxes::{be32, be64, boxes, boxes_from, bytes32, find_box, found, u16be, u32be, u64be};
use crate::cache::{Cache, Revision};
use crate::codec::{audio_object_type, first_entry, fourcc};
use crate::error::Invalid;
use crate::fmp4::{box_bytes, boxed, run_bytes, run_data_len};
use crate::guard::{
    byte_views, is_anchored, is_inside, law_paths_go_through_their_pieces, name_views,
    path_components, path_through, requested_names, trim_slashes, unquoted, PathStyle,
};
use crate::headers::law_search_goes_into_containers;
use crate::hls::{
    codec_list, joined, law_target_duration_bounds_every_segment, longest, resolution_text,
    seconds_text, Stream,
};
use crate::identifiers::{es_fields, is_length, law_object_type_reads_back, written_esds};
use crate::json::{json_string, list, listing_entries, text_le, texts};
use crate::locate::{first_step, header_step, read_header, BoxHeader, Step};
use crate::mp4::{in_decode_order, Mp4, Sample, Track, TrackView};
use crate::names::{law_plain_names_resolve, source, stream_name};
use crate::plan::{
    bound_views, lemma_run_at, lemma_run_of, lemma_runs_ascend, segment_runs, track_bounds,
};
use crate::playlist::{
    law_master_playlist_line_by_line, law_media_playlist_line_by_line,
    law_target_duration_is_the_least_bound, lines,
};
use crate::remux::{check_spans, Span};
use crate::roundtrip::law_box_fields;
use crate::routes::{
    law_fixed_names_lead_where_they_say, law_segment_numbers_lead_to_segments,
    lemma_numbered_is_no_playlist,
};
use crate::spelling::{only_decimals, spelled};
use crate::tables::sum;
use crate::text::{decimal, is_white_space, strip_suffix, trim_end};

verus! {

broadcast use crate::fmp4::lemma_box_len;

// --- playlists -----------------------------------------------------------

/// [`Stream::media_playlist`] lists the segments of the stream line by line.
pub proof fn law_media_playlist(stream: &Stream, base: &str, r: String)
    requires
        call_ensures(Stream::media_playlist, (stream, base), r),
        base@.len() > 0,
        base@[0] != '#',
        !base@.contains('\n'),
    ensures
        ({
            let list = lines(r@);
            let segments = stream@.segments;
            let target = list[3];
            &&& list.len() == 2 * segments.len() + 7
            &&& list[0] == "#EXTM3U"@
            &&& list[1] == "#EXT-X-VERSION:7"@
            &&& list[2] == "#EXT-X-PLAYLIST-TYPE:VOD"@
            &&& target.take(22) == "#EXT-X-TARGETDURATION:"@
            &&& only_decimals(target.skip(22))
            &&& forall|i: int|
                0 <= i < segments.len() ==> (#[trigger] segments[i]).duration.ceiling <= spelled(
                    target.skip(22),
                    10,
                )
            &&& list[4] == "#EXT-X-MEDIA-SEQUENCE:0"@
            &&& list[5] == "#EXT-X-MAP:URI=\""@ + base@ + "/init.mp4\""@
            &&& forall|i: int|
                0 <= i < segments.len() ==> {
                    &&& list[6 + 2 * i] == "#EXTINF:"@ + seconds_text(
                        (#[trigger] segments[i]).duration.micros as nat,
                    ) + ","@
                    &&& list[7 + 2 * i] == base@ + "/segment-"@ + decimal(i as nat) + ".m4s"@
                }
            &&& list.last() == "#EXT-X-ENDLIST"@
        }),
{
    let segments = stream@.segments;
    law_media_playlist_line_by_line(segments, base@);
    assert forall|i: int| 0 <= i < segments.len() implies (
    #[trigger] segments[i]).duration.ceiling <= longest(segments) by {
        law_target_duration_bounds_every_segment(segments, i);
    }
}

/// [`Stream::target_duration`] is the least number of whole seconds, from 1 on, that no
/// segment exceeds.
pub proof fn law_target_duration(stream: &Stream, r: u64, n: u64)
    requires
        call_ensures(Stream::target_duration, (stream,), r),
    ensures
        forall|i: int|
            0 <= i < stream@.segments.len() ==> (#[trigger] stream@.segments[i]).duration.ceiling
                <= r,
        n >= 1 && (forall|i: int|
            0 <= i < stream@.segments.len() ==> (#[trigger] stream@.segments[i]).duration.ceiling
                <= n) ==> r <= n,
        r >= 1,
{
    let segments = stream@.segments;
    assert forall|i: int| 0 <= i < segments.len() implies (
    #[trigger] segments[i]).duration.ceiling <= r by {
        law_target_duration_bounds_every_segment(segments, i);
    }
    if segments.len() > 0 {
        law_target_duration_bounds_every_segment(segments, 0);
    }
    if n >= 1 && (forall|i: int|
        0 <= i < segments.len() ==> (#[trigger] segments[i]).duration.ceiling <= n) {
        law_target_duration_is_the_least_bound(segments, n);
    }
}

/// [`Stream::master_playlist`] names the bandwidth, what is known of the stream, and the
/// media playlist.
pub proof fn law_master_playlist(stream: &Stream, base: &str, bandwidth: u64, r: String) -> (d: Seq<
    char,
>)
    requires
        call_ensures(Stream::master_playlist, (stream, base, bandwidth), r),
        !base@.contains('\n'),
        !crate::hls::codecs_text(stream@.mp4.tracks).contains('\n'),
        stream@.mp4.tracks.len() > 0,
    ensures
        ({
            let list = lines(r@);
            let codecs = codec_list(stream@.mp4.tracks);
            &&& list.len() == 5
            &&& list[0] == "#EXTM3U"@
            &&& list[1] == "#EXT-X-VERSION:7"@
            &&& list[2] == "#EXT-X-INDEPENDENT-SEGMENTS"@
            &&& list[3] == "#EXT-X-STREAM-INF:BANDWIDTH="@ + d + resolution_text(
                stream@.mp4.tracks,
            ) + (if codecs.len() == 0 {
                Seq::empty()
            } else {
                ",CODECS=\""@ + joined(codecs) + "\""@
            })
            &&& list[4] == base@ + "/index.m3u8"@
        }),
        only_decimals(d),
        spelled(d, 10) == bandwidth,
{
    law_master_playlist_line_by_line(stream@.mp4, base@, bandwidth)
}

// --- names ---------------------------------------------------------------

/// [`resource`] knows the fixed names and no others, and reads the number of a segment.
pub proof fn law_resource(file: &str, r: Resource, digits: Seq<char>)
    requires
        call_ensures(resource, (file,), r),
        digits.len() > 0,
        only_decimals(digits),
    ensures
        r == Resource::Master <==> file@ == "master.m3u8"@ || file@ == "master.m3u"@,
        r == Resource::Media <==> file@ == "index.m3u8"@ || file@ == "index.m3u"@ || file@
            == "playlist.m3u8"@ || file@ == "playlist.m3u"@,
        r == Resource::Init <==> file@ == "init.mp4"@,
        file@ == "segment-"@ + digits + ".m4s"@ && spelled(digits, 10) <= usize::MAX ==> r
            == Resource::Segment(spelled(digits, 10) as usize),
        file@ == "segment-"@ + digits + ".m4s"@ && spelled(digits, 10) > usize::MAX ==> r
            == Resource::Missing,
{
    law_fixed_names_lead_where_they_say(file@);
    law_segment_numbers_lead_to_segments(digits);
}

/// [`resource`] and [`segment_index`] agree on what asks for a segment.
pub proof fn law_segment_index(file: &str, r: Option<usize>, asked: Resource)
    requires
        call_ensures(segment_index, (file,), r),
        call_ensures(resource, (file,), asked),
    ensures
        asked matches Resource::Segment(n) ==> r == Some(n),
        r matches Some(n) ==> asked == Resource::Segment(n),
{
    if let Some(n) = r {
        lemma_numbered_is_no_playlist(file@);
    }
}

/// [`source`] resolves a plain name to itself with the extension, and nothing else.
pub proof fn law_source(name: &str, r: Option<String>)
    requires
        call_ensures(source, (name,), r),
        strip_suffix(name@, ".mp4"@) is None,
    ensures
        r is Some <==> name@.len() > 0 && name@[0] != '.' && !name@.contains('/')
            && !name@.contains('\\') && !name@.contains('\0') && (forall|i: int|
            0 <= i < name@.len() - 1 ==> !(#[trigger] name@[i] == '.' && name@[i + 1] == '.')),
        r matches Some(file) ==> file@ == name@ + ".mp4"@,
{
    law_plain_names_resolve(name@);
}

/// [`stream_name`] and [`source`] undo each other.
pub proof fn law_stream_name(file: &str, r: Option<String>, name: &str, found: Option<String>)
    requires
        call_ensures(stream_name, (file,), r),
        call_ensures(source, (name,), found),
    ensures
        r matches Some(stem) ==> file@ == stem@ + ".mp4"@ && (name@ == stem@ ==> (
        found matches Some(back) && back@ == file@)),
        strip_suffix(name@, ".mp4"@) is None && (found matches Some(back) && back@ == file@) ==> (
        r matches Some(stem) && stem@ == name@),
{
    crate::names::law_listed_streams_resolve(file@);
    if strip_suffix(name@, ".mp4"@) is None && crate::names::source_file(name@) is Some {
        crate::names::law_available_streams_are_listed(name@);
    }
}

/// [`list`] lists every name once, in the order of strings.
pub proof fn law_list(names: Vec<String>, r: String) -> (sorted: Seq<Seq<char>>)
    requires
        call_ensures(list, (names,), r),
    ensures
        r@ == "{\"streams\":["@ + listing_entries(sorted) + "]}"@,
        sorted.to_multiset() == texts(names@).to_multiset(),
        forall|i: int, j: int| 0 <= i < j < sorted.len() ==> text_le(sorted[i], sorted[j]),
{
    let sorted = choose|sorted: Seq<Seq<char>>| #[trigger]
        crate::json::is_sorting(texts(names@), sorted) && r@ == crate::json::listing_text(sorted);
    let le = |a: Seq<char>, b: Seq<char>| text_le(a, b);
    assert(sorted_by(sorted, le));
    assert forall|i: int, j: int| 0 <= i < j < sorted.len() implies text_le(
        sorted[i],
        sorted[j],
    ) by {
        assert(le(sorted[i], sorted[j]));
    }
    sorted
}

// --- paths ---------------------------------------------------------------

/// [`path_components`] of a path gives the pieces that it was put together from, but for
/// empty ones and `.`; one `..` has it refused.
pub proof fn law_path_components(
    style: PathStyle,
    path: &str,
    r: Option<Vec<String>>,
    pieces: Seq<Seq<char>>,
    separator: char,
)
    requires
        call_ensures(path_components, (style, path), r),
        path@ == path_through(pieces, separator),
        pieces.len() > 0,
        separator == '/' || (style == PathStyle::Windows && separator == '\\'),
        forall|i: int| 0 <= i < pieces.len() ==> !(#[trigger] pieces[i]).contains('/'),
        style == PathStyle::Windows ==> forall|i: int|
            0 <= i < pieces.len() ==> !(#[trigger] pieces[i]).contains('\\'),
        !is_anchored(style, path@),
    ensures
        pieces.contains(".."@) <==> r is None,
        r matches Some(names) ==> name_views(names@) == pieces.filter(
            |p: Seq<char>| p.len() > 0 && p != "."@,
        ),
{
    law_paths_go_through_their_pieces(style, pieces, separator);
}

/// [`is_inside`] accepts the directory and what lies below it, and nothing else.
pub proof fn law_is_inside(dir: &[Vec<u8>], resolved: &[Vec<u8>], r: bool)
    requires
        call_ensures(is_inside, (dir, resolved), r),
    ensures
        r <==> dir@.len() <= resolved@.len() && forall|i: int|
            0 <= i < dir@.len() ==> (#[trigger] dir@[i])@ == resolved@[i]@,
{
    let a = byte_views(dir@);
    let b = byte_views(resolved@);
    if r {
        assert forall|i: int| 0 <= i < dir@.len() implies (#[trigger] dir@[i])@ == resolved@[i]@ by {
            assert(a[i] == b.subrange(0, a.len() as int)[i]);
        }
    }
    if dir@.len() <= resolved@.len() && forall|i: int|
        0 <= i < dir@.len() ==> (#[trigger] dir@[i])@ == resolved@[i]@ {
        assert forall|i: int| 0 <= i < a.len() implies a[i] == b[i] by {
            assert(dir@[i]@ == resolved@[i]@);
        }
        assert(a =~= b.subrange(0, a.len() as int));
    }
}

// --- fields and boxes ----------------------------------------------------

/// [`u16be`], [`u32be`] and [`u64be`] read a field with the most significant byte first,
/// wherever the buffer holds all of it.
pub proof fn law_fields(
    buf: &[u8],
    at: u64,
    two: Result<u16, Invalid>,
    four: Result<u32, Invalid>,
    eight: Result<u64, Invalid>,
)
    requires
        call_ensures(u16be, (buf, at), two),
        call_ensures(u32be, (buf, at), four),
        call_ensures(u64be, (buf, at), eight),
    ensures
        at + 2 > buf@.len() ==> two == Err::<u16, Invalid>(Invalid::TruncatedBox),
        at + 4 > buf@.len() ==> four == Err::<u32, Invalid>(Invalid::TruncatedBox),
        at + 8 > buf@.len() ==> eight == Err::<u64, Invalid>(Invalid::TruncatedBox),
        at + 2 <= buf@.len() ==> (two matches Ok(v) && v == 0x100 * buf@[at as int] + buf@[at + 1]),
        at + 4 <= buf@.len() ==> (four matches Ok(v) && v == 0x100_0000 * buf@[at as int]
            + 0x1_0000 * buf@[at + 1] + 0x100 * buf@[at + 2] + buf@[at + 3]),
        at + 8 <= buf@.len() ==> (eight matches Ok(v) && v % 0x1_0000_0000 == 0x100_0000 * buf@[at
            + 4] + 0x1_0000 * buf@[at + 5] + 0x100 * buf@[at + 6] + buf@[at + 7] && (
        four matches Ok(high) && v / 0x1_0000_0000 == high)),
{
}

/// [`find_box`] goes through boxes in order and into those that hold the parts of a movie;
/// [`boxes`] collects those that lie side by side.
#[verifier::rlimit(40)]
pub proof fn law_boxes(
    body: &[u8],
    kind: u32,
    one: Option<&[u8]>,
    all: Vec<&[u8]>,
    first: u32,
    payload: Seq<u8>,
    rest: Seq<u8>,
)
    requires
        call_ensures(find_box, (body, kind), one),
        call_ensures(boxes, (body, kind), all),
        body@ == box_bytes(first, payload) + rest,
        payload.len() + 8 <= u32::MAX,
    ensures
        first == kind ==> (one matches Some(found) && found@ == payload) && all@.len() > 0
            && all@[0]@ == payload && all@.len() == 1 + boxes_from(rest, 0, kind).len(),
        first != kind && found(rest, kind) is None && found(payload, kind) is None ==> one is None,
        first != kind && found(payload, kind) is Some && (first == 0x6d6f_6f76 || first
            == 0x7472_616b || first == 0x6d64_6961 || first == 0x6d69_6e66 || first == 0x7374_626c
            || first == 0x6564_7473) ==> (one matches Some(hit) && found(payload, kind) == Some(
            hit@,
        )),
        first != kind && (found(payload, kind) is None || !(first == 0x6d6f_6f76 || first
            == 0x7472_616b || first == 0x6d64_6961 || first == 0x6d69_6e66 || first == 0x7374_626c
            || first == 0x6564_7473)) ==> (one is Some <==> found(rest, kind) is Some),
{
    law_search_goes_into_containers(first, payload, rest, kind);
    let read = all@.map_values(|p: &[u8]| p@);
    assert(read == boxes_from(body@, 0, kind));
    assert(all@.len() == read.len());
    if first == kind {
        assert(read == seq![payload] + boxes_from(rest, 0, kind));
        assert(read[0] == payload);
        assert(read[0] == all@[0]@);
        assert(found(body@, kind) == Some(payload));
    }
}

/// [`audio_object_type`] reads the upper five bits of the first byte of the
/// DecoderSpecificInfo, whatever the other fields of the descriptors hold.
pub proof fn law_audio_object_type(
    esds: &[u8],
    r: Option<u8>,
    head: Seq<u8>,
    es_length: Seq<u8>,
    id: Seq<u8>,
    config_length: Seq<u8>,
    config: Seq<u8>,
    info_length: Seq<u8>,
    info: Seq<u8>,
)
    requires
        call_ensures(audio_object_type, (esds,), r),
        esds@ == head + seq![3u8] + es_length + (id + seq![0u8]) + seq![4u8] + config_length
            + config + seq![5u8] + info_length + info,
        head.len() == 4,
        is_length(es_length),
        id.len() == 2,
        is_length(config_length),
        config.len() == 13,
        is_length(info_length),
        info.len() > 0,
    ensures
        info[0] < 8 ==> r is None,
        info[0] >= 8 ==> (r matches Some(t) && t == info[0] / 8),
{
    let none = Seq::<u8>::empty();
    let fields = es_fields(id, 0, none, none, none);
    assert(fields =~= id + seq![0u8]);
    law_object_type_reads_back(
        head,
        es_length,
        id,
        0,
        none,
        none,
        none,
        config_length,
        config,
        info_length,
        info,
    );
    assert(esds@ == written_esds(
        head,
        es_length,
        fields,
        config_length,
        config,
        info_length,
        info,
    ));
}

// --- files ---------------------------------------------------------------

/// [`check_spans`] accepts a file exactly if every span that holds anything lies in it.
pub proof fn law_check_spans(spans: &[Span], len: u64, r: Result<(), Invalid>)
    requires
        call_ensures(check_spans, (spans, len), r),
    ensures
        r is Ok <==> forall|i: int|
            0 <= i < spans@.len() && (#[trigger] spans@[i]).len > 0 ==> spans@[i].start
                + spans@[i].len <= len,
        r matches Err(e) ==> e == Invalid::TruncatedBox,
{
}

/// [`header_step`] goes into `moov` unless that is larger than 64 MiB, past any other box,
/// and gives up at one that runs past the file.
pub proof fn law_header_step(len: u64, pos: u64, bytes: &[u8], h: BoxHeader, r: Step)
    requires
        pos <= len,
        call_ensures(read_header, (bytes,), Some(h)),
        call_ensures(header_step, (len, pos, bytes), r),
    ensures
        ({
            let size: int = if h.size == 0 {
                len - pos
            } else {
                h.size as int
            };
            let whole = h.header <= size <= len - pos;
            &&& h.header == (if be32(bytes@, 0) == 1 {
                16int
            } else {
                8
            })
            &&& h.size == (if be32(bytes@, 0) == 1 {
                be64(bytes@, 8) as int
            } else {
                be32(bytes@, 0) as int
            })
            &&& h.kind == be32(bytes@, 4)
            &&& !whole ==> r == Step::Stop(Invalid::NoMoov)
            &&& whole && h.kind == 0x6d6f_6f76 && size - h.header > 67_108_864 ==> r == Step::Stop(
                Invalid::MoovTooLarge,
            )
            &&& whole && h.kind == 0x6d6f_6f76 && size - h.header <= 67_108_864 ==> (
            r matches Step::Moov { at, len: n } && at == pos + h.header && n == size - h.header)
            &&& whole && h.kind != 0x6d6f_6f76 && pos + size + 8 <= len ==> (
            r matches Step::Header { pos: next } && next == pos + size)
            &&& whole && h.kind != 0x6d6f_6f76 && pos + size + 8 > len ==> r == Step::Stop(
                Invalid::NoMoov,
            )
        }),
{
}

/// [`Track::sample_at`] of samples in decode order is where they part: all before it are
/// decoded earlier, and the others are not.
pub proof fn law_sample_at(track: &Track, dts: u64, r: usize)
    requires
        call_ensures(Track::sample_at, (track, dts), r),
        in_decode_order(track@.samples),
    ensures
        r <= track@.samples.len(),
        forall|i: int| 0 <= i < r ==> (#[trigger] track@.samples[i]).dts < dts,
        forall|i: int| r <= i < track@.samples.len() ==> dts <= (#[trigger] track@.samples[i]).dts,
{
    assert(crate::mp4::parted_at(track@.samples, dts, r as int));
}

/// [`Mp4::video_index`] is the first video track, if there is one.
pub proof fn law_video_index(mp4: &Mp4, r: Option<usize>)
    requires
        call_ensures(Mp4::video_index, (mp4,), r),
    ensures
        match r {
            Some(v) => v < mp4@.tracks.len() && mp4@.tracks[v as int].kind is Video && forall|i: int|
                0 <= i < v ==> !((#[trigger] mp4@.tracks[i]).kind is Video),
            None => forall|i: int|
                0 <= i < mp4@.tracks.len() ==> !((#[trigger] mp4@.tracks[i]).kind is Video),
        },
{
    crate::plan::lemma_first_video(mp4@.tracks, 0);
}

/// What is cached under another revision, or not at all, is not found.
pub proof fn law_cache_get<T>(cache: &Cache<T>, name: &str, revision: &Revision, r: Option<&T>)
    requires
        call_ensures(Cache::<T>::get, (cache, name, revision), r),
    ensures
        match r {
            Some(value) => cache@.contains_key(name@) && cache@[name@] == (*revision, *value),
            None => !cache@.contains_key(name@) || cache@[name@].0 != *revision,
        },
{
}

/// [`Stream::total_bytes`] adds up the sizes of all samples of all tracks, modulo 2^64: a
/// stream with one more track has as many bytes more as the samples of that track.
pub proof fn law_total_bytes(some: &Stream, a: u64, more: &Stream, b: u64, track: TrackView)
    requires
        call_ensures(Stream::total_bytes, (some,), a),
        call_ensures(Stream::total_bytes, (more,), b),
        more@.mp4.tracks == some@.mp4.tracks.push(track),
    ensures
        b == (a + sum(Seq::new(track.samples.len(), |i: int| track.samples[i].size)))
            % 0x1_0000_0000_0000_0000,
        some@.mp4.tracks.len() == 0 ==> a == 0,
{
    let tracks = some@.mp4.tracks;
    assert(tracks.push(track).drop_last() =~= tracks);
    lemma_run_bytes(track.samples);
}

proof fn lemma_run_bytes(samples: Seq<Sample>)
    ensures
        run_bytes(samples) == sum(Seq::new(samples.len(), |i: int| samples[i].size)),
    decreases samples.len(),
{
    let sizes = Seq::new(samples.len(), |i: int| samples[i].size);
    if samples.len() > 0 {
        let rest = samples.drop_last();
        lemma_run_bytes(rest);
        assert(sizes.drop_last() =~= Seq::new(rest.len(), |i: int| rest[i].size));
    }
}

/// [`run_data_len`] adds up the sizes of the samples.
pub proof fn law_run_data_len(samples: &[Sample], r: u64)
    requires
        call_ensures(run_data_len, (samples,), r),
    ensures
        sum(Seq::new(samples@.len(), |i: int| samples@[i].size)) <= u64::MAX ==> r == sum(
            Seq::new(samples@.len(), |i: int| samples@[i].size),
        ),
{
    lemma_run_bytes(samples@);
}

// --- texts ---------------------------------------------------------------

proof fn lemma_ascii(bytes: Seq<u8>, chars: Seq<char>)
    requires
        bytes.len() == chars.len(),
        forall|i: int| 0 <= i < bytes.len() ==> #[trigger] bytes[i] < 0x80 && chars[i] == bytes[i]
            as char,
    ensures
        valid_utf8(bytes),
        decode_utf8(bytes) == chars,
{
    assert(is_ascii_chars(chars)) by {
        assert forall|i: int| 0 <= i < chars.len() implies '\0' <= #[trigger] chars[i]
            <= '\u{7f}' by {
            assert(bytes[i] < 0x80);
        }
    }
    is_ascii_chars_encode_utf8(chars);
    assert(encode_utf8(chars) =~= bytes) by {
        assert forall|i: int| 0 <= i < bytes.len() implies #[trigger] encode_utf8(chars)[i]
            == bytes[i] by {
            assert(chars[i] as u8 == encode_utf8(chars)[i]);
            assert(bytes[i] < 0x80);
        }
    }
    encode_utf8_valid_utf8(chars);
    encode_utf8_decode_utf8(chars);
}

/// [`fourcc`] spells a box type of printable ASCII characters as it is.
pub proof fn law_fourcc(kind: u32, r: String, chars: Seq<char>)
    requires
        call_ensures(fourcc, (kind,), r),
        chars.len() == 4,
        forall|i: int|
            0 <= i < 4 ==> 0x21 <= #[trigger] bytes32(kind)[i] < 0x7f && chars[i] == bytes32(
                kind,
            )[i] as char,
    ensures
        r@ == chars,
{
    lemma_ascii(bytes32(kind), chars);
    assert(0x21 <= bytes32(kind)[3] < 0x7f);
    assert(!is_white_space(chars[3]));
    assert(trim_end(chars) == chars);
}

/// [`Track::codec`] of an entry that nothing more is known of is the type of the entry.
pub proof fn law_plain_codec(
    track: &Track,
    r: Option<String>,
    format: u32,
    body: Seq<u8>,
    chars: Seq<char>,
)
    requires
        call_ensures(Track::codec, (track,), r),
        first_entry(track@.stsd) == Some((format, body)),
        format != 0x4f70_7573 && format != 0x6163_2d33 && format != 0x6563_2d33,
        format != 0x6176_6331 && format != 0x6176_6333 && format != 0x6876_6331,
        format != 0x6865_7631 && format != 0x6d70_3461,
        chars.len() == 4,
        forall|i: int|
            0 <= i < 4 ==> 0x21 <= #[trigger] bytes32(format)[i] < 0x7f && chars[i] == bytes32(
                format,
            )[i] as char,
    ensures
        r matches Some(text) && text@ == chars,
{
    lemma_ascii(bytes32(format), chars);
    assert(0x21 <= bytes32(format)[3] < 0x7f);
    assert(!is_white_space(chars[3]));
    assert(trim_end(chars) == chars);
}

/// [`requested_names`] drops the slashes in front of a path, decodes the rest and goes
/// through it as [`path_components`] does. What does not decode is refused.
pub proof fn law_requested_names(
    style: PathStyle,
    path: &str,
    r: Option<Vec<String>>,
    slashes: nat,
    rest: Seq<char>,
    text: &str,
    names: Option<Vec<String>>,
)
    requires
        call_ensures(requested_names, (style, path), r),
        path@ == Seq::new(slashes, |i: int| '/') + rest,
        rest.len() == 0 || rest[0] != '/',
        call_ensures(path_components, (style, text), names),
    ensures
        !valid_utf8(unquoted(encode_utf8(rest))) ==> r is None,
        valid_utf8(unquoted(encode_utf8(rest))) && text@ == decode_utf8(
            unquoted(encode_utf8(rest)),
        ) ==> match (r, names) {
            (Some(a), Some(b)) => name_views(a@) == name_views(b@),
            (None, None) => true,
            _ => false,
        },
{
    lemma_trimmed(slashes, rest);
}

proof fn lemma_trimmed(slashes: nat, rest: Seq<char>)
    requires
        rest.len() == 0 || rest[0] != '/',
    ensures
        trim_slashes(Seq::new(slashes, |i: int| '/') + rest) == rest,
    decreases slashes,
{
    let path = Seq::new(slashes, |i: int| '/') + rest;
    if slashes > 0 {
        lemma_trimmed((slashes - 1) as nat, rest);
        assert(path.skip(1) =~= Seq::new((slashes - 1) as nat, |i: int| '/') + rest);
    } else {
        assert(path =~= rest);
    }
}

// --- plans ---------------------------------------------------------------

/// [`track_bounds`] of samples in decode order: each bound parts them at its tick, and the
/// last is their end.
pub proof fn law_track_bounds(track: &Track, ticks: &[u64], r: Vec<usize>, k: int)
    requires
        call_ensures(track_bounds, (track, ticks), r),
        in_decode_order(track@.samples),
        0 <= k < ticks@.len(),
    ensures
        r@.len() == ticks@.len() + 1,
        r@.last() == track@.samples.len(),
        r@[k] <= track@.samples.len(),
        forall|i: int| 0 <= i < r@[k] ==> (#[trigger] track@.samples[i]).dts < ticks@[k],
        forall|i: int|
            r@[k] <= i < track@.samples.len() ==> ticks@[k] <= (#[trigger] track@.samples[i]).dts,
{
    assert(crate::plan::is_bound(track@.samples, ticks@[k], r@[k]));
    assert(crate::mp4::parted_at(track@.samples, ticks@[k], r@[k] as int));
}

/// [`segment_runs`] gives each track with samples between bounds `k` and `k + 1` one run of
/// those samples, in track order.
#[verifier::rlimit(40)]
pub proof fn law_segment_runs(bounds: &[Vec<usize>], k: usize, r: Vec<(usize, Range<usize>)>, t: int)
    requires
        call_ensures(segment_runs, (bounds, k), r),
        0 <= t < bounds@.len() <= usize::MAX,
    ensures
        forall|a: int, b: int|
            0 <= a < b < r@.len() ==> (#[trigger] r@[a]).0 < (#[trigger] r@[b]).0,
        forall|a: int|
            0 <= a < r@.len() ==> {
                let (at, range) = #[trigger] r@[a];
                &&& at < bounds@.len()
                &&& range.start == bounds@[at as int]@[k as int]
                &&& range.end == bounds@[at as int]@[k + 1]
                &&& range.start < range.end
            },
        bounds@[t]@[k as int] < bounds@[t]@[k + 1] ==> exists|a: int|
            0 <= a < r@.len() && (#[trigger] r@[a]).0 == t,
{
    let views = bound_views(bounds@);
    let n = views.len() as int;
    lemma_runs_ascend(views, k as int, n);
    assert forall|a: int| 0 <= a < r@.len() implies ({
        let (at, range) = #[trigger] r@[a];
        &&& at < bounds@.len()
        &&& range.start == bounds@[at as int]@[k as int]
        &&& range.end == bounds@[at as int]@[k + 1]
        &&& range.start < range.end
    }) by {
        lemma_run_of(views, k as int, n, a);
    }
    if bounds@[t]@[k as int] < bounds@[t]@[k + 1] {
        assert(views[t] == bounds@[t]@);
        let a = lemma_run_at(views, k as int, n, t);
        assert(r@[a].0 == t);
    }
}

// --- replies -------------------------------------------------------------

/// Both playlists are served alike, and so are init and media segments. What is missing is
/// not cached, and everything else is.
pub proof fn law_replies(
    asked: Resource,
    kind: &'static str,
    policy: Option<&'static str>,
    other: Resource,
    other_kind: &'static str,
    other_policy: Option<&'static str>,
)
    requires
        call_ensures(Resource::content_type, (&asked,), kind),
        call_ensures(Resource::cache_control, (&asked,), policy),
        call_ensures(Resource::content_type, (&other,), other_kind),
        call_ensures(Resource::cache_control, (&other,), other_policy),
    ensures
        policy is None <==> asked == Resource::Missing,
        asked == Resource::Master && other == Resource::Media ==> kind@ == other_kind@
            && policy->0@ == other_policy->0@,
        asked == Resource::Init && other is Segment ==> policy->0@ == other_policy->0@ && kind@
            != other_kind@,
        asked == Resource::Media && other is Segment ==> policy->0@ != other_policy->0@ && kind@
            != other_kind@,
        asked is Segment && other is Segment ==> kind@ == other_kind@ && policy->0@
            == other_policy->0@,
{
    reveal_strlit("application/vnd.apple.mpegurl");
    reveal_strlit("video/mp4");
    reveal_strlit("video/iso.segment");
    reveal_strlit("public, max-age=10");
    reveal_strlit("public, max-age=31536000, immutable");
    assert("application/vnd.apple.mpegurl"@.len() == 29);
    assert("video/mp4"@.len() == 9);
    assert("video/iso.segment"@.len() == 17);
    assert("public, max-age=10"@.len() == 18);
    assert("public, max-age=31536000, immutable"@.len() == 35);
}

/// The type of the box that a defect is the lack of.
pub open spec fn lacking(defect: Invalid) -> Option<u32> {
    match defect {
        Invalid::NoMoov => Some(0x6d6f_6f76u32),
        Invalid::NoMvhd => Some(0x6d76_6864u32),
        Invalid::NoTkhd => Some(0x746b_6864u32),
        Invalid::NoMdia => Some(0x6d64_6961u32),
        Invalid::NoMdhd => Some(0x6d64_6864u32),
        Invalid::NoHdlr => Some(0x6864_6c72u32),
        Invalid::NoStbl => Some(0x7374_626cu32),
        Invalid::NoStsd => Some(0x7374_7364u32),
        Invalid::NoStsc => Some(0x7374_7363u32),
        Invalid::NoStts => Some(0x7374_7473u32),
        Invalid::NoStsz => Some(0x7374_737au32),
        Invalid::NoStco => Some(0x7374_636fu32),
        _ => None,
    }
}

/// The message of a defect that is the lack of a box names the box.
pub proof fn law_messages_name_the_box(defect: Invalid, r: &'static str, kind: u32)
    requires
        call_ensures(Invalid::message, (defect,), r),
        lacking(defect) == Some(kind),
    ensures
        r@.len() == 17,
        r@.take(3) == "no "@,
        forall|i: int| 0 <= i < 4 ==> r@[3 + i] == #[trigger] bytes32(kind)[i] as char,
        r@.skip(7) == " box found"@,
{
    reveal_strlit("no ");
    reveal_strlit(" box found");
    match defect {
        Invalid::NoMoov => {
            reveal_strlit("no moov box found");
        },
        Invalid::NoMvhd => {
            reveal_strlit("no mvhd box found");
        },
        Invalid::NoTkhd => {
            reveal_strlit("no tkhd box found");
        },
        Invalid::NoMdia => {
            reveal_strlit("no mdia box found");
        },
        Invalid::NoMdhd => {
            reveal_strlit("no mdhd box found");
        },
        Invalid::NoHdlr => {
            reveal_strlit("no hdlr box found");
        },
        Invalid::NoStbl => {
            reveal_strlit("no stbl box found");
        },
        Invalid::NoStsd => {
            reveal_strlit("no stsd box found");
        },
        Invalid::NoStsc => {
            reveal_strlit("no stsc box found");
        },
        Invalid::NoStts => {
            reveal_strlit("no stts box found");
        },
        Invalid::NoStsz => {
            reveal_strlit("no stsz box found");
        },
        Invalid::NoStco => {
            reveal_strlit("no stco box found");
        },
        _ => {},
    }
    assert(r@.take(3) =~= "no "@);
    assert(r@.skip(7) =~= " box found"@);
}

/// Failures that the client can mend are answered with a status from 400 on, the others
/// with one from 500 on. Each answer is a line of text, and that of an unusable file is the
/// text that came with the failure.
pub proof fn law_answers(failure: &Failure, r: (u16, String))
    requires
        call_ensures(Failure::answer, (failure,), r),
    ensures
        *failure is Other ==> 500 <= r.0 < 600,
        !(*failure is Other) ==> 400 <= r.0 < 500,
        *failure is NotFound <==> r.0 == 404,
        r.1@.len() > 0 && r.1@.last() == '\n',
        *failure matches Failure::InvalidData(text) ==> r.1@ == text@.push('\n'),
{
    reveal_strlit("not found\n");
    reveal_strlit("internal error\n");
    reveal_strlit("\n");
    if let Failure::InvalidData(text) = *failure {
        assert(r.1@ =~= text@.push('\n'));
    }
}

/// The list of streams leads to the multivariant playlist below [`base_path`].
pub proof fn law_listing_leads_to_the_base_path(name: &str, r: String)
    requires
        call_ensures(base_path, (name,), r),
    ensures
        listing_entries(seq![name@]) == "{\"name\":"@ + json_string(name@) + ",\"master\":"@
            + json_string(r@ + "/master.m3u8"@) + "}"@,
{
}

/// [`boxed`] makes a box that is read back whole, whatever follows it.
#[verifier::rlimit(40)]
pub proof fn law_boxed(kind: u32, payload: &[u8], r: Vec<u8>, rest: Seq<u8>)
    requires
        call_ensures(boxed, (kind, payload), r),
        payload@.len() + 8 <= u32::MAX,
    ensures
        r@.len() == payload@.len() + 8,
        boxes_from(r@ + rest, 0, kind) == seq![payload@] + boxes_from(rest, 0, kind),
        found(r@ + rest, kind) == Some(payload@),
        be32(r@, 0) == r@.len(),
        be32(r@, 4) == kind,
        r@.skip(8) == payload@,
{
    law_search_goes_into_containers(kind, payload@, rest, kind);
    law_box_fields(kind, payload@);
}

/// [`Mp4::video`] is the track that [`Mp4::video_index`] finds.
pub proof fn law_video(mp4: &Mp4, index: Option<usize>, r: Option<&Track>)
    requires
        call_ensures(Mp4::video_index, (mp4,), index),
        call_ensures(Mp4::video, (mp4,), r),
    ensures
        match (index, r) {
            (Some(i), Some(t)) => t@ == mp4@.tracks[i as int] && t@.kind is Video,
            (None, None) => true,
            _ => false,
        },
{
}

/// The search starts at the first header, if the file is long enough for one. A file that
/// ends inside a header is cut off.
pub proof fn law_search_starts(
    len: u64,
    first: Step,
    pos: u64,
    bytes: &[u8],
    h: Option<BoxHeader>,
    r: Step,
)
    requires
        pos <= len,
        call_ensures(first_step, (len,), first),
        call_ensures(read_header, (bytes,), h),
        call_ensures(header_step, (len, pos, bytes), r),
    ensures
        len < 8 ==> first == Step::Stop(Invalid::NoMoov),
        len >= 8 ==> first == (Step::Header { pos: 0 }),
        h is None <==> bytes@.len() < 8 || (be32(bytes@, 0) == 1 && bytes@.len() < 16),
        h is None ==> r == Step::Stop(Invalid::TruncatedBox),
{
}

} // verus!
