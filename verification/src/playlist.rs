//! What a player reads, line by line, out of a media playlist.

use vstd::arithmetic::power::{lemma_pow0, pow};
use vstd::prelude::*;

use crate::api::{law_segment_names_lead_back, segment_number};
use crate::codec::codec_text;
use crate::hls::{
    codec_list, codecs_text, entries_text, entry_text, joined,
    law_target_duration_bounds_every_segment, longest, master_text, media_text, resolution_text,
    seconds_text,
};
use crate::mp4::{Mp4View, TrackView};
use crate::plan::{law_first_video_leads, reference, SegmentView};
use crate::spelling::{law_decimal_reads_back, law_padded_reads_back, only_decimals, spelled};
use crate::text::{decimal, digit, padded};

verus! {

// --- lines ---------------------------------------------------------------

/// The pieces of `s` between line feeds, empty ones included.
pub open spec fn split_lines(s: Seq<char>) -> Seq<Seq<char>>
    decreases s.len(),
{
    if s.len() == 0 {
        seq![Seq::empty()]
    } else if s.last() == '\n' {
        split_lines(s.drop_last()).push(Seq::empty())
    } else {
        let before = split_lines(s.drop_last());
        before.drop_last().push(before.last().push(s.last()))
    }
}

/// The lines of `s`. A line feed ends a line, so there is none behind the last.
pub open spec fn lines(s: Seq<char>) -> Seq<Seq<char>> {
    if s.len() == 0 || s.last() == '\n' {
        split_lines(s).drop_last()
    } else {
        split_lines(s)
    }
}

/// The lines that name a resource: those that do not start with `#`.
pub open spec fn uri_lines(list: Seq<Seq<char>>) -> Seq<Seq<char>>
    decreases list.len(),
{
    if list.len() == 0 {
        Seq::empty()
    } else if list.last().len() > 0 && list.last()[0] == '#' {
        uri_lines(list.drop_last())
    } else {
        uri_lines(list.drop_last()).push(list.last())
    }
}

/// The text that `list` are the lines of.
spec fn text_of(list: Seq<Seq<char>>) -> Seq<char>
    decreases list.len(),
{
    if list.len() == 0 {
        Seq::empty()
    } else {
        text_of(list.drop_last()) + list.last() + seq!['\n']
    }
}

spec fn is_line(s: Seq<char>) -> bool {
    forall|i: int| 0 <= i < s.len() ==> #[trigger] s[i] != '\n'
}

proof fn lemma_split_append(a: Seq<char>, l: Seq<char>)
    requires
        is_line(l),
    ensures
        split_lines(a).len() > 0,
        split_lines(a + l) == split_lines(a).drop_last().push(split_lines(a).last() + l),
    decreases a.len() + l.len(),
{
    if a.len() > 0 {
        lemma_split_append(a.drop_last(), Seq::empty());
    }
    let head = split_lines(a);
    if l.len() == 0 {
        assert(a + l =~= a);
        assert(head.last() + l =~= head.last());
        assert(head.drop_last().push(head.last()) =~= head);
    } else {
        let rest = l.drop_last();
        assert(is_line(rest)) by {
            assert forall|i: int| 0 <= i < rest.len() implies #[trigger] rest[i] != '\n' by {
                assert(rest[i] == l[i]);
            }
        }
        lemma_split_append(a, rest);
        assert((a + l).drop_last() =~= a + rest);
        let before = split_lines(a + rest);
        assert(before.drop_last() =~= head.drop_last());
        assert((head.last() + rest).push(l.last()) =~= head.last() + l);
        assert(l.last() == l[l.len() - 1]);
    }
}

proof fn lemma_lines(list: Seq<Seq<char>>)
    requires
        forall|i: int| 0 <= i < list.len() ==> is_line(#[trigger] list[i]),
    ensures
        split_lines(text_of(list)) == list.push(Seq::empty()),
        lines(text_of(list)) == list,
    decreases list.len(),
{
    let text = text_of(list);
    if list.len() == 0 {
        assert(split_lines(text) =~= list.push(Seq::empty()));
        assert(split_lines(text).drop_last() =~= list);
    } else {
        let rest = list.drop_last();
        let last = list[list.len() - 1];
        assert forall|i: int| 0 <= i < rest.len() implies is_line(#[trigger] rest[i]) by {
            assert(rest[i] == list[i]);
        }
        lemma_lines(rest);
        lemma_split_append(text_of(rest), last);
        assert(rest.push(Seq::<char>::empty()).drop_last() =~= rest);
        assert(Seq::<char>::empty() + last =~= last);
        assert(text.drop_last() =~= text_of(rest) + last);
        assert(rest.push(last) =~= list);
        assert(split_lines(text) == list.push(Seq::empty()));
        assert(list.push(Seq::<char>::empty()).drop_last() =~= list);
    }
}

proof fn lemma_text_push(list: Seq<Seq<char>>, line: Seq<char>)
    ensures
        text_of(list.push(line)) == text_of(list) + line + seq!['\n'],
{
    assert(list.push(line).drop_last() =~= list);
}

proof fn lemma_text_append(a: Seq<Seq<char>>, b: Seq<Seq<char>>)
    ensures
        text_of(a + b) == text_of(a) + text_of(b),
    decreases b.len(),
{
    if b.len() == 0 {
        assert(a + b =~= a);
        assert(text_of(a) + text_of(b) =~= text_of(a));
    } else {
        lemma_text_append(a, b.drop_last());
        assert((a + b).drop_last() =~= a + b.drop_last());
        assert(text_of(a + b) =~= text_of(a) + text_of(b));
    }
}

proof fn lemma_uri_append(a: Seq<Seq<char>>, b: Seq<Seq<char>>)
    ensures
        uri_lines(a + b) == uri_lines(a) + uri_lines(b),
    decreases b.len(),
{
    if b.len() == 0 {
        assert(a + b =~= a);
        assert(uri_lines(a) + uri_lines(b) =~= uri_lines(a));
    } else {
        lemma_uri_append(a, b.drop_last());
        assert((a + b).drop_last() =~= a + b.drop_last());
        assert(uri_lines(a + b) =~= uri_lines(a) + uri_lines(b));
    }
}

proof fn lemma_decimal_is_line(n: nat)
    ensures
        is_line(decimal(n)),
    decreases n,
{
    assert('0' as int <= digit((n % 10) as int) as int <= '9' as int);
    if n >= 10 {
        lemma_decimal_is_line(n / 10);
        assert forall|i: int| 0 <= i < decimal(n).len() implies #[trigger] decimal(n)[i] != '\n' by {
            if i < decimal(n / 10).len() {
                assert(decimal(n)[i] == decimal(n / 10)[i]);
            }
        }
    }
}

proof fn lemma_padded_is_line(n: nat, width: nat)
    ensures
        is_line(padded(n, width)),
    decreases width,
{
    if width > 0 {
        let before = padded(n / 10, (width - 1) as nat);
        lemma_padded_is_line(n / 10, (width - 1) as nat);
        assert('0' as int <= digit((n % 10) as int) as int <= '9' as int);
        assert forall|i: int| 0 <= i < padded(n, width).len() implies #[trigger] padded(
            n,
            width,
        )[i] != '\n' by {
            if i < before.len() {
                assert(padded(n, width)[i] == before[i]);
            }
        }
    }
}

proof fn lemma_line_append(a: Seq<char>, b: Seq<char>)
    requires
        is_line(a),
        is_line(b),
    ensures
        is_line(a + b),
{
    assert forall|i: int| 0 <= i < (a + b).len() implies #[trigger] (a + b)[i] != '\n' by {
        if i < a.len() {
            assert((a + b)[i] == a[i]);
        } else {
            assert((a + b)[i] == b[i - a.len()]);
        }
    }
}

// --- the media playlist --------------------------------------------------

/// The file name that the media playlist gives segment `i`.
pub open spec fn segment_file(i: nat) -> Seq<char> {
    "segment-"@ + decimal(i) + ".m4s"@
}

spec fn length_line(segment: SegmentView) -> Seq<char> {
    "#EXTINF:"@ + seconds_text(segment.duration.micros as nat) + ","@
}

spec fn entry_lines(segments: Seq<SegmentView>, base: Seq<char>) -> Seq<Seq<char>>
    decreases segments.len(),
{
    if segments.len() == 0 {
        Seq::empty()
    } else {
        entry_lines(segments.drop_last(), base).push(length_line(segments.last())).push(
            base + "/"@ + segment_file((segments.len() - 1) as nat),
        )
    }
}

spec fn target_line(segments: Seq<SegmentView>) -> Seq<char> {
    "#EXT-X-TARGETDURATION:"@ + decimal(longest(segments) as nat)
}

spec fn map_line(base: Seq<char>) -> Seq<char> {
    "#EXT-X-MAP:URI=\""@ + base + "/init.mp4\""@
}

spec fn head_lines(segments: Seq<SegmentView>, base: Seq<char>) -> Seq<Seq<char>> {
    Seq::<Seq<char>>::empty().push("#EXTM3U"@).push("#EXT-X-VERSION:7"@).push(
        "#EXT-X-PLAYLIST-TYPE:VOD"@,
    ).push(target_line(segments)).push("#EXT-X-MEDIA-SEQUENCE:0"@).push(map_line(base))
}

spec fn last_lines() -> Seq<Seq<char>> {
    Seq::<Seq<char>>::empty().push("#EXT-X-ENDLIST"@)
}

proof fn lemma_head_text(segments: Seq<SegmentView>, base: Seq<char>)
    ensures
        text_of(head_lines(segments, base)) == "#EXTM3U\n#EXT-X-VERSION:7\n"@
            + "#EXT-X-PLAYLIST-TYPE:VOD\n"@ + "#EXT-X-TARGETDURATION:"@ + decimal(
            longest(segments) as nat,
        ) + "\n"@ + "#EXT-X-MEDIA-SEQUENCE:0\n"@ + "#EXT-X-MAP:URI=\""@ + base + "/init.mp4\"\n"@,
{
    reveal_strlit("\n");
    let n = seq!['\n'];
    assert("\n"@ =~= n);
    let h0 = Seq::<Seq<char>>::empty();
    let h1 = h0.push("#EXTM3U"@);
    let h2 = h1.push("#EXT-X-VERSION:7"@);
    let h3 = h2.push("#EXT-X-PLAYLIST-TYPE:VOD"@);
    let h4 = h3.push(target_line(segments));
    let h5 = h4.push("#EXT-X-MEDIA-SEQUENCE:0"@);
    lemma_text_push(h0, "#EXTM3U"@);
    lemma_text_push(h1, "#EXT-X-VERSION:7"@);
    lemma_text_push(h2, "#EXT-X-PLAYLIST-TYPE:VOD"@);
    lemma_text_push(h3, target_line(segments));
    lemma_text_push(h4, "#EXT-X-MEDIA-SEQUENCE:0"@);
    lemma_text_push(h5, map_line(base));
    assert(text_of(h2) =~= "#EXTM3U\n#EXT-X-VERSION:7\n"@) by {
        reveal_strlit("#EXTM3U");
        reveal_strlit("#EXT-X-VERSION:7");
        reveal_strlit("#EXTM3U\n#EXT-X-VERSION:7\n");
    }
    assert("#EXT-X-PLAYLIST-TYPE:VOD\n"@ =~= "#EXT-X-PLAYLIST-TYPE:VOD"@ + n) by {
        reveal_strlit("#EXT-X-PLAYLIST-TYPE:VOD");
        reveal_strlit("#EXT-X-PLAYLIST-TYPE:VOD\n");
    }
    assert("#EXT-X-MEDIA-SEQUENCE:0\n"@ =~= "#EXT-X-MEDIA-SEQUENCE:0"@ + n) by {
        reveal_strlit("#EXT-X-MEDIA-SEQUENCE:0");
        reveal_strlit("#EXT-X-MEDIA-SEQUENCE:0\n");
    }
    assert("/init.mp4\"\n"@ =~= "/init.mp4\""@ + n) by {
        reveal_strlit("/init.mp4\"");
        reveal_strlit("/init.mp4\"\n");
    }
    let target = "#EXT-X-TARGETDURATION:"@;
    let digits = decimal(longest(segments) as nat);
    let map = "#EXT-X-MAP:URI=\""@;
    assert(text_of(h3) =~= text_of(h2) + "#EXT-X-PLAYLIST-TYPE:VOD\n"@);
    assert(text_of(h4) =~= text_of(h3) + target + digits + "\n"@);
    assert(text_of(h5) =~= text_of(h4) + "#EXT-X-MEDIA-SEQUENCE:0\n"@);
    assert(text_of(h5.push(map_line(base))) =~= text_of(h5) + map + base + "/init.mp4\"\n"@);
}

proof fn lemma_entry_text(segment: SegmentView, base: Seq<char>, i: nat)
    ensures
        entry_text(segment, base, i) == length_line(segment) + seq!['\n'] + (base + "/"@
            + segment_file(i)) + seq!['\n'],
{
    let n = seq!['\n'];
    assert(",\n"@ =~= ","@ + n) by {
        reveal_strlit(",\n");
        reveal_strlit(",");
    }
    assert(".m4s\n"@ =~= ".m4s"@ + n) by {
        reveal_strlit(".m4s\n");
        reveal_strlit(".m4s");
    }
    assert("/segment-"@ =~= "/"@ + "segment-"@) by {
        reveal_strlit("/segment-");
        reveal_strlit("/");
        reveal_strlit("segment-");
    }
    let seconds = seconds_text(segment.duration.micros as nat);
    let start = "#EXTINF:"@;
    assert(start + seconds + ",\n"@ =~= length_line(segment) + n);
    let first = length_line(segment) + n;
    assert(first + base + "/segment-"@ + decimal(i) + ".m4s\n"@ =~= first + (base + "/"@
        + segment_file(i)) + n);
}

proof fn lemma_entries_text(segments: Seq<SegmentView>, base: Seq<char>)
    ensures
        entries_text(segments, base) == text_of(entry_lines(segments, base)),
    decreases segments.len(),
{
    if segments.len() > 0 {
        let before = entry_lines(segments.drop_last(), base);
        let i = (segments.len() - 1) as nat;
        let length = length_line(segments.last());
        let uri = base + "/"@ + segment_file(i);
        lemma_entries_text(segments.drop_last(), base);
        lemma_entry_text(segments.last(), base, i);
        lemma_text_push(before, length);
        lemma_text_push(before.push(length), uri);
        assert(entries_text(segments, base) =~= text_of(entry_lines(segments, base)));
    }
}

proof fn lemma_media_text(segments: Seq<SegmentView>, base: Seq<char>)
    ensures
        media_text(segments, base) == text_of(
            head_lines(segments, base) + entry_lines(segments, base) + last_lines(),
        ),
{
    let head = head_lines(segments, base);
    let entries = entry_lines(segments, base);
    lemma_head_text(segments, base);
    lemma_entries_text(segments, base);
    lemma_text_append(head, entries);
    lemma_text_append(head + entries, last_lines());
    lemma_text_push(Seq::empty(), "#EXT-X-ENDLIST"@);
    assert(text_of(last_lines()) =~= "#EXT-X-ENDLIST\n"@) by {
        reveal_strlit("#EXT-X-ENDLIST");
        reveal_strlit("#EXT-X-ENDLIST\n");
    }
}

proof fn lemma_head_lines(segments: Seq<SegmentView>, base: Seq<char>)
    requires
        is_line(base),
    ensures
        forall|i: int|
            0 <= i < head_lines(segments, base).len() ==> is_line(
                #[trigger] head_lines(segments, base)[i],
            ),
        head_lines(segments, base).len() == 6,
        head_lines(segments, base)[3] == target_line(segments),
        uri_lines(head_lines(segments, base)) == Seq::<Seq<char>>::empty(),
        is_line(last_lines()[0]),
        uri_lines(last_lines()) == Seq::<Seq<char>>::empty(),
{
    reveal_strlit("#EXTM3U");
    reveal_strlit("#EXT-X-VERSION:7");
    reveal_strlit("#EXT-X-PLAYLIST-TYPE:VOD");
    reveal_strlit("#EXT-X-TARGETDURATION:");
    reveal_strlit("#EXT-X-MEDIA-SEQUENCE:0");
    reveal_strlit("#EXT-X-MAP:URI=\"");
    reveal_strlit("/init.mp4\"");
    reveal_strlit("#EXT-X-ENDLIST");
    lemma_decimal_is_line(longest(segments) as nat);
    lemma_line_append("#EXT-X-TARGETDURATION:"@, decimal(longest(segments) as nat));
    lemma_line_append("#EXT-X-MAP:URI=\""@, base);
    lemma_line_append("#EXT-X-MAP:URI=\""@ + base, "/init.mp4\""@);
    let h0 = Seq::<Seq<char>>::empty();
    let h1 = h0.push("#EXTM3U"@);
    let h2 = h1.push("#EXT-X-VERSION:7"@);
    let h3 = h2.push("#EXT-X-PLAYLIST-TYPE:VOD"@);
    let h4 = h3.push(target_line(segments));
    let h5 = h4.push("#EXT-X-MEDIA-SEQUENCE:0"@);
    let h6 = h5.push(map_line(base));
    assert(h1.drop_last() =~= h0 && h2.drop_last() =~= h1 && h3.drop_last() =~= h2);
    assert(h4.drop_last() =~= h3 && h5.drop_last() =~= h4 && h6.drop_last() =~= h5);
    assert(uri_lines(h1) == uri_lines(h0));
    assert(uri_lines(h2) == uri_lines(h1));
    assert(uri_lines(h3) == uri_lines(h2));
    assert(uri_lines(h4) == uri_lines(h3));
    assert(uri_lines(h5) == uri_lines(h4));
    assert(uri_lines(h6) == uri_lines(h5));
    assert(last_lines().drop_last() =~= h0);
}

proof fn lemma_entry_lines(segments: Seq<SegmentView>, base: Seq<char>)
    requires
        is_line(base),
        base.len() > 0,
        base[0] != '#',
    ensures
        forall|i: int|
            0 <= i < entry_lines(segments, base).len() ==> is_line(
                #[trigger] entry_lines(segments, base)[i],
            ),
        uri_lines(entry_lines(segments, base)) == Seq::new(
            segments.len(),
            |i: int| base + "/"@ + segment_file(i as nat),
        ),
    decreases segments.len(),
{
    let uris = Seq::new(segments.len(), |i: int| base + "/"@ + segment_file(i as nat));
    if segments.len() == 0 {
        assert(uri_lines(entry_lines(segments, base)) =~= uris);
    } else {
        let rest = segments.drop_last();
        let n = (segments.len() - 1) as nat;
        let micros = segments.last().duration.micros as nat;
        let before = entry_lines(rest, base);
        let length = length_line(segments.last());
        let uri = base + "/"@ + segment_file(n);
        lemma_entry_lines(rest, base);
        reveal_strlit("#EXTINF:");
        reveal_strlit(",");
        reveal_strlit(".");
        reveal_strlit("/");
        reveal_strlit("segment-");
        reveal_strlit(".m4s");
        lemma_decimal_is_line(micros / 1_000_000);
        lemma_padded_is_line(micros % 1_000_000, 6);
        lemma_decimal_is_line(n);
        lemma_line_append(decimal(micros / 1_000_000), "."@);
        lemma_line_append(
            decimal(micros / 1_000_000) + "."@,
            padded(micros % 1_000_000, 6),
        );
        lemma_line_append("#EXTINF:"@, seconds_text(micros));
        lemma_line_append("#EXTINF:"@ + seconds_text(micros), ","@);
        lemma_line_append("segment-"@, decimal(n));
        lemma_line_append("segment-"@ + decimal(n), ".m4s"@);
        lemma_line_append(base, "/"@);
        lemma_line_append(base + "/"@, segment_file(n));
        assert(length[0] == '#');
        assert(uri[0] == base[0]);
        let one = before.push(length);
        let two = one.push(uri);
        assert(one.drop_last() =~= before);
        assert(two.drop_last() =~= one);
        assert(uri_lines(one) == uri_lines(before));
        assert(uri_lines(two) == uri_lines(one).push(uri));
        assert(uri_lines(two) =~= uris);
        assert forall|i: int| 0 <= i < two.len() implies is_line(#[trigger] two[i]) by {
            if i < before.len() {
                assert(two[i] == before[i]);
            }
        }
    }
}

/// The media playlist names each segment in one line, in order, and nothing else: the
/// lines that do not start with `#` are `base` and the file names of the segments, each
/// of which leads back to its segment. Its fourth line states the target duration.
pub proof fn law_media_playlist_names_every_segment(segments: Seq<SegmentView>, base: Seq<char>)
    requires
        base.len() > 0,
        base[0] != '#',
        !base.contains('\n'),
    ensures
        ({
            let list = lines(media_text(segments, base));
            let uris = uri_lines(list);
            &&& list.len() >= 4
            &&& list[3] == "#EXT-X-TARGETDURATION:"@ + decimal(longest(segments) as nat)
            &&& uris.len() == segments.len()
            &&& forall|i: int|
                #![trigger uris[i]]
                0 <= i < uris.len() ==> uris[i] == base + "/"@ + segment_file(i as nat)
                    && segment_number(segment_file(i as nat)) == Some(i as nat)
        }),
{
    assert(is_line(base)) by {
        assert forall|i: int| 0 <= i < base.len() implies #[trigger] base[i] != '\n' by {
            assert(base.contains(base[i]));
        }
    }
    let head = head_lines(segments, base);
    let entries = entry_lines(segments, base);
    let all = head + entries + last_lines();
    lemma_media_text(segments, base);
    lemma_head_lines(segments, base);
    lemma_entry_lines(segments, base);
    assert forall|i: int| 0 <= i < all.len() implies is_line(#[trigger] all[i]) by {
        if i < head.len() {
            assert(all[i] == head[i]);
        } else if i < head.len() + entries.len() {
            assert(all[i] == entries[i - head.len()]);
        } else {
            assert(all[i] == last_lines()[0]);
        }
    }
    lemma_lines(all);
    lemma_uri_append(head, entries);
    lemma_uri_append(head + entries, last_lines());
    let uris = Seq::new(segments.len(), |i: int| base + "/"@ + segment_file(i as nat));
    assert(uri_lines(all) =~= uris);
    assert(all[3] == head[3]);
    assert forall|i: int| 0 <= i < segments.len() implies #[trigger] segment_number(
        segment_file(i as nat),
    ) == Some(i as nat) by {
        law_segment_names_lead_back(i as nat);
    }
}

/// The target duration is the least number of whole seconds, from 1 on, that no segment
/// exceeds.
pub proof fn law_target_duration_is_the_least_bound(segments: Seq<SegmentView>, n: u64)
    requires
        n >= 1,
        forall|i: int|
            0 <= i < segments.len() ==> (#[trigger] segments[i]).duration.ceiling <= n,
    ensures
        longest(segments) <= n,
    decreases segments.len(),
{
    if segments.len() > 0 {
        let rest = segments.drop_last();
        assert forall|i: int| 0 <= i < rest.len() implies (#[trigger] rest[i]).duration.ceiling
            <= n by {
            assert(rest[i] == segments[i]);
        }
        law_target_duration_is_the_least_bound(rest, n);
        assert(segments[segments.len() - 1].duration.ceiling <= n);
    }
}

/// The length that is printed for a segment does not exceed the target duration, as long
/// as it is no more than the segment's seconds rounded up.
pub proof fn law_no_printed_length_exceeds_the_target(segments: Seq<SegmentView>, i: int)
    requires
        0 <= i < segments.len(),
        segments[i].duration.micros <= segments[i].duration.ceiling * 1_000_000,
    ensures
        segments[i].duration.micros <= longest(segments) * 1_000_000,
{
    law_target_duration_bounds_every_segment(segments, i);
}

/// A length is printed in seconds with six decimals behind a point, which together say how
/// many microseconds it is.
pub proof fn law_printed_seconds_read_back(micros: nat)
    ensures
        ({
            let text = seconds_text(micros);
            let point = text.len() - 7;
            &&& point > 0
            &&& text[point] == '.'
            &&& only_decimals(text.take(point))
            &&& only_decimals(text.skip(point + 1))
            &&& spelled(text.take(point), 10) * 1_000_000 + spelled(text.skip(point + 1), 10)
                == micros
            &&& point == 1 || text[0] != '0'
        }),
{
    reveal_strlit(".");
    let whole = decimal(micros / 1_000_000);
    let rest = padded(micros % 1_000_000, 6);
    law_decimal_reads_back(micros / 1_000_000);
    assert(pow(10, 6) == 1_000_000) by {
        lemma_pow0(10);
        reveal(pow);
        assert(pow(10, 1) == 10);
        assert(pow(10, 2) == 100);
        assert(pow(10, 3) == 1000);
        assert(pow(10, 4) == 10_000);
        assert(pow(10, 5) == 100_000);
    }
    law_padded_reads_back(micros % 1_000_000, 6);
    let text = seconds_text(micros);
    let point = text.len() - 7;
    assert(text == whole + "."@ + rest);
    assert(point == whole.len());
    assert(text.take(point) =~= whole);
    assert(text.skip(point + 1) =~= rest);
}

proof fn lemma_entry_at(segments: Seq<SegmentView>, base: Seq<char>, i: int)
    requires
        0 <= i < segments.len(),
    ensures
        entry_lines(segments, base).len() == 2 * segments.len(),
        entry_lines(segments, base)[2 * i] == length_line(segments[i]),
        entry_lines(segments, base)[2 * i + 1] == base + "/"@ + segment_file(i as nat),
    decreases segments.len(),
{
    let rest = segments.drop_last();
    if rest.len() > 0 {
        lemma_entry_at(rest, base, if i < rest.len() {
            i
        } else {
            0
        });
        if i < rest.len() {
            assert(rest[i] == segments[i]);
            assert(entry_lines(segments, base)[2 * i] == entry_lines(rest, base)[2 * i]);
            assert(entry_lines(segments, base)[2 * i + 1] == entry_lines(rest, base)[2 * i + 1]);
        }
    } else {
        assert(entry_lines(rest, base) =~= Seq::empty());
    }
}

/// The media playlist line by line: six lines of header, which name the init segment and
/// the target duration, two lines for each segment, its length and its name, and the line
/// that ends the list.
#[verifier::rlimit(40)]
pub proof fn law_media_playlist_line_by_line(segments: Seq<SegmentView>, base: Seq<char>)
    requires
        base.len() > 0,
        base[0] != '#',
        !base.contains('\n'),
    ensures
        ({
            let list = lines(media_text(segments, base));
            let target = list[3];
            &&& list.len() == 2 * segments.len() + 7
            &&& list[0] == "#EXTM3U"@
            &&& list[1] == "#EXT-X-VERSION:7"@
            &&& list[2] == "#EXT-X-PLAYLIST-TYPE:VOD"@
            &&& target.len() > 22
            &&& target.take(22) == "#EXT-X-TARGETDURATION:"@
            &&& only_decimals(target.skip(22))
            &&& spelled(target.skip(22), 10) == longest(segments)
            &&& list[4] == "#EXT-X-MEDIA-SEQUENCE:0"@
            &&& list[5] == "#EXT-X-MAP:URI=\""@ + base + "/init.mp4\""@
            &&& forall|i: int|
                0 <= i < segments.len() ==> {
                    &&& list[6 + 2 * i] == "#EXTINF:"@ + seconds_text(
                        (#[trigger] segments[i]).duration.micros as nat,
                    ) + ","@
                    &&& list[7 + 2 * i] == base + "/segment-"@ + decimal(i as nat) + ".m4s"@
                }
            &&& list.last() == "#EXT-X-ENDLIST"@
        }),
{
    assert(is_line(base)) by {
        assert forall|i: int| 0 <= i < base.len() implies #[trigger] base[i] != '\n' by {
            assert(base.contains(base[i]));
        }
    }
    let head = head_lines(segments, base);
    let entries = entry_lines(segments, base);
    let all = head + entries + last_lines();
    lemma_media_text(segments, base);
    lemma_head_lines(segments, base);
    lemma_entry_lines(segments, base);
    if segments.len() > 0 {
        lemma_entry_at(segments, base, 0);
    } else {
        assert(entries =~= Seq::empty());
    }
    assert forall|i: int| 0 <= i < all.len() implies is_line(#[trigger] all[i]) by {
        if i < head.len() {
            assert(all[i] == head[i]);
        } else if i < head.len() + entries.len() {
            assert(all[i] == entries[i - head.len()]);
        } else {
            assert(all[i] == last_lines()[0]);
        }
    }
    lemma_lines(all);
    let digits = decimal(longest(segments) as nat);
    law_decimal_reads_back(longest(segments) as nat);
    assert(all[3] == target_line(segments));
    reveal_strlit("#EXT-X-TARGETDURATION:");
    assert(all[3].take(22) =~= "#EXT-X-TARGETDURATION:"@);
    assert(all[3].skip(22) =~= digits);
    assert forall|i: int| 0 <= i < segments.len() implies ({
        &&& all[6 + 2 * i] == "#EXTINF:"@ + seconds_text(
            (#[trigger] segments[i]).duration.micros as nat,
        ) + ","@
        &&& all[7 + 2 * i] == base + "/segment-"@ + decimal(i as nat) + ".m4s"@
    }) by {
        lemma_entry_at(segments, base, i);
        assert(all[6 + 2 * i] == entries[2 * i]);
        assert(all[7 + 2 * i] == entries[2 * i + 1]);
        reveal_strlit("/segment-");
        reveal_strlit("/");
        reveal_strlit("segment-");
        assert("/segment-"@ =~= "/"@ + "segment-"@);
        assert(base + "/"@ + segment_file(i as nat) =~= base + "/segment-"@ + decimal(i as nat)
            + ".m4s"@);
    }
    assert(all.last() == last_lines()[0]);
}

// --- the multivariant playlist -------------------------------------------

/// Identifiers are listed in track order, with a comma between each two and none for a
/// track without one.
pub proof fn law_codecs_come_in_track_order(
    a: Seq<TrackView>,
    b: Seq<TrackView>,
    t: TrackView,
    x: Seq<Seq<char>>,
    y: Seq<Seq<char>>,
    c: Seq<char>,
)
    ensures
        codec_list(Seq::empty()) == Seq::<Seq<char>>::empty(),
        codec_list(seq![t]) == (match codec_text(t.stsd) {
            Some(codec) => seq![codec],
            None => Seq::empty(),
        }),
        codec_list(a + b) == codec_list(a) + codec_list(b),
        joined(seq![c]) == c,
        x.len() > 0 && y.len() > 0 ==> joined(x + y) == joined(x) + seq![','] + joined(y),
{
    lemma_codec_list(a, b);
    assert(seq![t].drop_last() =~= Seq::empty());
    assert(codec_list(Seq::<TrackView>::empty()) =~= Seq::<Seq<char>>::empty());
    if let Some(codec) = codec_text(t.stsd) {
        assert(Seq::<Seq<char>>::empty().push(codec) =~= seq![codec]);
    }
    if x.len() > 0 && y.len() > 0 {
        lemma_joined(x, y);
    }
}

proof fn lemma_codec_list(a: Seq<TrackView>, b: Seq<TrackView>)
    ensures
        codec_list(a + b) == codec_list(a) + codec_list(b),
    decreases b.len(),
{
    if b.len() == 0 {
        assert(a + b =~= a);
        assert(codec_list(a) + codec_list(b) =~= codec_list(a));
    } else {
        lemma_codec_list(a, b.drop_last());
        assert((a + b).drop_last() =~= a + b.drop_last());
        assert(codec_list(a + b) =~= codec_list(a) + codec_list(b));
    }
}

proof fn lemma_joined(x: Seq<Seq<char>>, y: Seq<Seq<char>>)
    requires
        x.len() > 0,
        y.len() > 0,
    ensures
        joined(x + y) == joined(x) + seq![','] + joined(y),
    decreases y.len(),
{
    reveal_strlit(",");
    assert(","@ =~= seq![',']);
    assert((x + y).drop_last() =~= x + y.drop_last());
    if y.len() == 1 {
        assert(x + y.drop_last() =~= x);
    } else {
        lemma_joined(x, y.drop_last());
        assert(joined(x + y) =~= joined(x) + seq![','] + joined(y));
    }
}

/// The display size is that of the reference track, in whole pixels, where that is a video
/// track with a size. Width and height come out of 16.16 fixed point numbers.
pub proof fn law_resolution_reads_back(tracks: Seq<TrackView>) -> (r: (Seq<char>, Seq<char>))
    requires
        tracks.len() > 0,
    ensures
        ({
            let t = tracks[reference(tracks)];
            if t.kind is Video && t.width >= 0x1_0000 && t.height >= 0x1_0000 {
                &&& resolution_text(tracks) == ",RESOLUTION="@ + r.0 + seq!['x'] + r.1
                &&& only_decimals(r.0)
                &&& only_decimals(r.1)
                &&& spelled(r.0, 10) * 0x1_0000 <= t.width < (spelled(r.0, 10) + 1) * 0x1_0000
                &&& spelled(r.1, 10) * 0x1_0000 <= t.height < (spelled(r.1, 10) + 1) * 0x1_0000
            } else {
                resolution_text(tracks) == Seq::<char>::empty()
            }
        }),
{
    law_first_video_leads(tracks);
    crate::plan::lemma_first_video(tracks, 0);
    let t = tracks[reference(tracks)];
    let w = (t.width / 0x1_0000) as nat;
    let h = (t.height / 0x1_0000) as nat;
    law_decimal_reads_back(w);
    law_decimal_reads_back(h);
    reveal_strlit("x");
    assert("x"@ =~= seq!['x']);
    (decimal(w), decimal(h))
}

spec fn stream_line(m: Mp4View, bandwidth: u64) -> Seq<char> {
    "#EXT-X-STREAM-INF:BANDWIDTH="@ + decimal(bandwidth as nat) + resolution_text(m.tracks)
        + codecs_text(m.tracks)
}

proof fn lemma_master_text(m: Mp4View, base: Seq<char>, bandwidth: u64)
    ensures
        master_text(m, base, bandwidth) == text_of(
            Seq::<Seq<char>>::empty().push("#EXTM3U"@).push("#EXT-X-VERSION:7"@).push(
                "#EXT-X-INDEPENDENT-SEGMENTS"@,
            ).push(stream_line(m, bandwidth)).push(base + "/index.m3u8"@),
        ),
{
    reveal_strlit("\n");
    let n = seq!['\n'];
    assert("\n"@ =~= n);
    let h0 = Seq::<Seq<char>>::empty();
    let h1 = h0.push("#EXTM3U"@);
    let h2 = h1.push("#EXT-X-VERSION:7"@);
    let h3 = h2.push("#EXT-X-INDEPENDENT-SEGMENTS"@);
    let h4 = h3.push(stream_line(m, bandwidth));
    let h5 = h4.push(base + "/index.m3u8"@);
    lemma_text_push(h0, "#EXTM3U"@);
    lemma_text_push(h1, "#EXT-X-VERSION:7"@);
    lemma_text_push(h2, "#EXT-X-INDEPENDENT-SEGMENTS"@);
    lemma_text_push(h3, stream_line(m, bandwidth));
    lemma_text_push(h4, base + "/index.m3u8"@);
    assert(text_of(h2) =~= "#EXTM3U\n#EXT-X-VERSION:7\n"@) by {
        reveal_strlit("#EXTM3U");
        reveal_strlit("#EXT-X-VERSION:7");
        reveal_strlit("#EXTM3U\n#EXT-X-VERSION:7\n");
    }
    assert("#EXT-X-INDEPENDENT-SEGMENTS\n"@ =~= "#EXT-X-INDEPENDENT-SEGMENTS"@ + n) by {
        reveal_strlit("#EXT-X-INDEPENDENT-SEGMENTS");
        reveal_strlit("#EXT-X-INDEPENDENT-SEGMENTS\n");
    }
    assert("/index.m3u8\n"@ =~= "/index.m3u8"@ + n) by {
        reveal_strlit("/index.m3u8");
        reveal_strlit("/index.m3u8\n");
    }
    assert(text_of(h3) =~= text_of(h2) + "#EXT-X-INDEPENDENT-SEGMENTS\n"@);
    assert(text_of(h4) =~= text_of(h3) + "#EXT-X-STREAM-INF:BANDWIDTH="@ + decimal(
        bandwidth as nat,
    ) + resolution_text(m.tracks) + codecs_text(m.tracks) + "\n"@);
    assert(text_of(h5) =~= text_of(h4) + base + "/index.m3u8\n"@);
}

/// The multivariant playlist line by line: a header, one stream with its bandwidth and what
/// is known of its display size and codecs, and behind it the name of the media playlist.
/// The codecs stand in quotes, and are left out where there are none.
#[verifier::rlimit(40)]
pub proof fn law_master_playlist_line_by_line(m: Mp4View, base: Seq<char>, bandwidth: u64) -> (d:
    Seq<char>)
    requires
        !base.contains('\n'),
        !codecs_text(m.tracks).contains('\n'),
        m.tracks.len() > 0,
    ensures
        ({
            let list = lines(master_text(m, base, bandwidth));
            let codecs = codec_list(m.tracks);
            &&& list.len() == 5
            &&& list[0] == "#EXTM3U"@
            &&& list[1] == "#EXT-X-VERSION:7"@
            &&& list[2] == "#EXT-X-INDEPENDENT-SEGMENTS"@
            &&& list[3] == "#EXT-X-STREAM-INF:BANDWIDTH="@ + d + resolution_text(m.tracks) + (
            if codecs.len() == 0 {
                Seq::empty()
            } else {
                ",CODECS=\""@ + joined(codecs) + "\""@
            })
            &&& list[4] == base + "/index.m3u8"@
        }),
        only_decimals(d),
        spelled(d, 10) == bandwidth,
{
    let d = decimal(bandwidth as nat);
    let list = Seq::<Seq<char>>::empty().push("#EXTM3U"@).push("#EXT-X-VERSION:7"@).push(
        "#EXT-X-INDEPENDENT-SEGMENTS"@,
    ).push(stream_line(m, bandwidth)).push(base + "/index.m3u8"@);
    lemma_master_text(m, base, bandwidth);
    law_decimal_reads_back(bandwidth as nat);
    lemma_decimal_is_line(bandwidth as nat);
    assert(is_line(base)) by {
        assert forall|i: int| 0 <= i < base.len() implies #[trigger] base[i] != '\n' by {
            assert(base.contains(base[i]));
        }
    }
    let codecs = codecs_text(m.tracks);
    assert(is_line(codecs)) by {
        assert forall|i: int| 0 <= i < codecs.len() implies #[trigger] codecs[i] != '\n' by {
            assert(codecs.contains(codecs[i]));
        }
    }
    lemma_resolution_is_line(m.tracks);
    reveal_strlit("#EXTM3U");
    reveal_strlit("#EXT-X-VERSION:7");
    reveal_strlit("#EXT-X-INDEPENDENT-SEGMENTS");
    reveal_strlit("#EXT-X-STREAM-INF:BANDWIDTH=");
    reveal_strlit("/index.m3u8");
    lemma_line_append("#EXT-X-STREAM-INF:BANDWIDTH="@, d);
    lemma_line_append("#EXT-X-STREAM-INF:BANDWIDTH="@ + d, resolution_text(m.tracks));
    lemma_line_append(
        "#EXT-X-STREAM-INF:BANDWIDTH="@ + d + resolution_text(m.tracks),
        codecs,
    );
    lemma_line_append(base, "/index.m3u8"@);
    assert(is_line("#EXTM3U"@) && is_line("#EXT-X-VERSION:7"@));
    assert(is_line("#EXT-X-INDEPENDENT-SEGMENTS"@));
    lemma_lines(list);
    d
}

proof fn lemma_resolution_is_line(tracks: Seq<TrackView>)
    requires
        tracks.len() > 0,
    ensures
        is_line(resolution_text(tracks)),
{
    let (w, h) = law_resolution_reads_back(tracks);
    let text = resolution_text(tracks);
    if text.len() > 0 {
        reveal_strlit(",RESOLUTION=");
        assert(is_line(w)) by {
            assert forall|i: int| 0 <= i < w.len() implies #[trigger] w[i] != '\n' by {}
        }
        assert(is_line(h)) by {
            assert forall|i: int| 0 <= i < h.len() implies #[trigger] h[i] != '\n' by {}
        }
        lemma_line_append(",RESOLUTION="@, w);
        lemma_line_append(",RESOLUTION="@ + w, seq!['x']);
        lemma_line_append(",RESOLUTION="@ + w + seq!['x'], h);
    }
}

} // verus!
