//! Which names lead where.

use vstd::prelude::*;

use crate::api::{
    all_digits, is_digit, number, playlist_name, resource_of, segment_number, spelled_number,
    Resource,
};
use crate::spelling::{law_stripping_undoes_adding, only_decimals, spelled};
use crate::text::{strip_prefix, strip_suffix};

verus! {

proof fn lemma_number(digits: Seq<char>)
    requires
        only_decimals(digits),
    ensures
        all_digits(digits),
        number(digits) == spelled(digits, 10),
    decreases digits.len(),
{
    if digits.len() > 0 {
        let rest = digits.drop_last();
        assert forall|i: int| 0 <= i < rest.len() implies '0' <= #[trigger] rest[i] <= '9' by {
            assert(rest[i] == digits[i]);
        }
        assert forall|i: int| 0 <= i < digits.len() implies is_digit(#[trigger] digits[i]) by {}
        lemma_number(rest);
        assert('0' <= digits[digits.len() - 1] <= '9');
    }
}

/// Any decimal number between `segment-` and `.m4s`, leading zeros and a plus sign
/// included, asks for the segment of that number, if a `usize` holds it.
pub proof fn law_segment_numbers_lead_to_segments(digits: Seq<char>)
    requires
        digits.len() > 0,
        only_decimals(digits),
    ensures
        spelled(digits, 10) <= usize::MAX ==> {
            let n = spelled(digits, 10) as usize;
            &&& resource_of("segment-"@ + digits + ".m4s"@) == Resource::Segment(n)
            &&& resource_of("segment-"@ + (seq!['+'] + digits) + ".m4s"@) == Resource::Segment(n)
        },
        spelled(digits, 10) > usize::MAX ==> {
            &&& resource_of("segment-"@ + digits + ".m4s"@) == Resource::Missing
            &&& resource_of("segment-"@ + (seq!['+'] + digits) + ".m4s"@) == Resource::Missing
        },
{
    let plus = seq!['+'] + digits;
    lemma_number(digits);
    assert('0' <= digits[0] <= '9');
    assert(plus.skip(1) =~= digits);
    lemma_segment_file(digits);
    lemma_segment_file(plus);
}

proof fn lemma_segment_file(middle: Seq<char>)
    ensures
        ({
            let file = "segment-"@ + middle + ".m4s"@;
            &&& segment_number(file) == spelled_number(middle)
            &&& playlist_name(file) is None
            &&& file != "init.mp4"@
        }),
{
    reveal_strlit(".m4s");
    reveal_strlit(".m3u");
    reveal_strlit(".m3u8");
    reveal_strlit("init.mp4");
    let file = "segment-"@ + middle + ".m4s"@;
    assert(file =~= "segment-"@ + (middle + ".m4s"@));
    law_stripping_undoes_adding(middle + ".m4s"@, "segment-"@);
    law_stripping_undoes_adding(middle, ".m4s"@);
    assert(file.last() == 's');
    if ".m3u8"@.is_suffix_of(file) {
        assert(file.subrange(file.len() - 5, file.len() as int)[4] == '8');
    }
    if ".m3u"@.is_suffix_of(file) {
        assert(file.subrange(file.len() - 4, file.len() as int)[3] == 'u');
    }
    assert("init.mp4"@.last() == '4');
}

/// Nothing but such a name asks for a segment.
pub proof fn law_only_numbered_names_lead_to_segments(file: Seq<char>, n: usize) -> (digits: Seq<
    char,
>)
    requires
        resource_of(file) == Resource::Segment(n),
    ensures
        file == "segment-"@ + digits + ".m4s"@ || file == "segment-"@ + (seq!['+'] + digits)
            + ".m4s"@,
        digits.len() > 0,
        only_decimals(digits),
        spelled(digits, 10) == n,
{
    lemma_numbered(file, "segment-"@, ".m4s"@)
}

proof fn lemma_numbered(file: Seq<char>, prefix: Seq<char>, suffix: Seq<char>) -> (digits: Seq<
    char,
>)
    requires
        strip_prefix(file, prefix) is Some,
        strip_suffix(strip_prefix(file, prefix)->0, suffix) is Some,
        spelled_number(strip_suffix(strip_prefix(file, prefix)->0, suffix)->0) is Some,
    ensures
        file == prefix + digits + suffix || file == prefix + (seq!['+'] + digits) + suffix,
        digits.len() > 0,
        only_decimals(digits),
        spelled(digits, 10) == spelled_number(
            strip_suffix(strip_prefix(file, prefix)->0, suffix)->0,
        )->0,
{
    let rest = strip_prefix(file, prefix)->0;
    let middle = strip_suffix(rest, suffix)->0;
    law_stripping_undoes_adding(file, prefix);
    law_stripping_undoes_adding(rest, suffix);
    assert(prefix + (middle + suffix) =~= prefix + middle + suffix);
    let digits = if middle.len() > 0 && middle[0] == '+' {
        middle.skip(1)
    } else {
        middle
    };
    if middle.len() > 0 && middle[0] == '+' {
        assert(middle =~= seq!['+'] + digits);
    }
    assert(only_decimals(digits)) by {
        assert forall|i: int| 0 <= i < digits.len() implies '0' <= #[trigger] digits[i] <= '9' by {
            assert(is_digit(digits[i]));
        }
    }
    lemma_number(digits);
    digits
}

proof fn lemma_short_is_not_long(name: Seq<char>)
    ensures
        strip_suffix(name + ".m3u"@, ".m3u8"@) is None,
{
    reveal_strlit(".m3u");
    reveal_strlit(".m3u8");
    let file = name + ".m3u"@;
    if ".m3u8"@.is_suffix_of(file) {
        assert(file.subrange(file.len() - 5, file.len() as int)[4] == '8');
        assert(file.last() == 'u');
    }
}

/// A name asks for a playlist exactly if it is the name of that playlist with `.m3u8` or
/// `.m3u` behind it.
proof fn lemma_playlist(file: Seq<char>, name: Seq<char>)
    ensures
        playlist_name(file) == Some(name) <==> file == name + ".m3u8"@ || file == name + ".m3u"@,
{
    law_stripping_undoes_adding(name, ".m3u8"@);
    law_stripping_undoes_adding(name, ".m3u"@);
    law_stripping_undoes_adding(file, ".m3u8"@);
    law_stripping_undoes_adding(file, ".m3u"@);
    lemma_short_is_not_long(name);
    if playlist_name(file) == Some(name) {
        if strip_suffix(file, ".m3u8"@) is Some {
            assert(file == name + ".m3u8"@);
        } else {
            assert(file == name + ".m3u"@);
        }
    }
}

/// The names of the multivariant playlist, of the media playlist and of the init segment,
/// and that nothing else asks for them.
#[verifier::rlimit(40)]
pub proof fn law_fixed_names_lead_where_they_say(file: Seq<char>)
    ensures
        resource_of(file) == Resource::Master <==> file == "master.m3u8"@ || file
            == "master.m3u"@,
        resource_of(file) == Resource::Media <==> file == "index.m3u8"@ || file == "index.m3u"@
            || file == "playlist.m3u8"@ || file == "playlist.m3u"@,
        resource_of(file) == Resource::Init <==> file == "init.mp4"@,
{
    lemma_playlist(file, "master"@);
    lemma_playlist(file, "index"@);
    lemma_playlist(file, "playlist"@);
    assert("master.m3u8"@ =~= "master"@ + ".m3u8"@) by {
        reveal_strlit("master.m3u8");
        reveal_strlit("master");
        reveal_strlit(".m3u8");
    }
    assert("master.m3u"@ =~= "master"@ + ".m3u"@) by {
        reveal_strlit("master.m3u");
        reveal_strlit("master");
        reveal_strlit(".m3u");
    }
    assert("index.m3u8"@ =~= "index"@ + ".m3u8"@) by {
        reveal_strlit("index.m3u8");
        reveal_strlit("index");
        reveal_strlit(".m3u8");
    }
    assert("index.m3u"@ =~= "index"@ + ".m3u"@) by {
        reveal_strlit("index.m3u");
        reveal_strlit("index");
        reveal_strlit(".m3u");
    }
    assert("playlist.m3u8"@ =~= "playlist"@ + ".m3u8"@) by {
        reveal_strlit("playlist.m3u8");
        reveal_strlit("playlist");
        reveal_strlit(".m3u8");
    }
    assert("playlist.m3u"@ =~= "playlist"@ + ".m3u"@) by {
        reveal_strlit("playlist.m3u");
        reveal_strlit("playlist");
        reveal_strlit(".m3u");
    }
    reveal_strlit("master");
    reveal_strlit("index");
    reveal_strlit("playlist");
    assert("master"@.len() == 6 && "index"@.len() == 5 && "playlist"@.len() == 8);
    reveal_strlit("init.mp4");
    reveal_strlit(".m3u8");
    reveal_strlit(".m3u");
    law_stripping_undoes_adding(file, ".m3u8"@);
    law_stripping_undoes_adding(file, ".m3u"@);
    if file == "init.mp4"@ {
        assert(file.last() == '4');
        if playlist_name(file) is Some {
            assert(file.last() == '8' || file.last() == 'u');
        }
    }
}

/// A name that a segment number can be read out of is no other name.
pub proof fn lemma_numbered_is_no_playlist(file: Seq<char>)
    requires
        segment_number(file) is Some,
    ensures
        playlist_name(file) is None,
        file != "init.mp4"@,
{
    let digits = lemma_numbered(file, "segment-"@, ".m4s"@);
    lemma_segment_file(digits);
    lemma_segment_file(seq!['+'] + digits);
}

} // verus!
