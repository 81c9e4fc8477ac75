//! The names that the HTTP surface understands, and the texts it answers with.
//!
//! ```text
//! GET /api/stream                          list of available streams (JSON)
//! GET /api/stream/{name}/master.m3u8       multivariant playlist
//! GET /api/stream/{name}/index.m3u8        media playlist
//! GET /api/stream/{name}/init.mp4          CMAF init segment
//! GET /api/stream/{name}/segment-{n}.m4s   CMAF media segment
//! ```
//!
//! `.m3u` is accepted everywhere `.m3u8` is, for players that key off the
//! extension.

use vstd::prelude::*;
use vstd::slice::slice_subrange;
use vstd::string::*;

use crate::text::{
    after_prefix, before_suffix, chars_of, decimal, digit, is_word, strip_prefix, strip_suffix,
};

verus! {

// --- segment names -------------------------------------------------------

/// Whether `c` is an ASCII digit.
pub open spec fn is_digit(c: char) -> bool {
    '0' <= c && c <= '9'
}

/// Whether `s` is made of ASCII digits.
pub open spec fn all_digits(s: Seq<char>) -> bool {
    forall|i: int| 0 <= i < s.len() ==> is_digit(#[trigger] s[i])
}

/// The number that a string of decimal digits spells.
pub open spec fn number(digits: Seq<char>) -> nat
    decreases digits.len(),
{
    if digits.len() == 0 {
        0
    } else {
        10 * number(digits.drop_last()) + (digits.last() as int - '0' as int) as nat
    }
}

/// The number that `s` spells: digits, at least one, behind an optional `+`.
pub open spec fn spelled_number(s: Seq<char>) -> Option<nat> {
    let digits = if s.len() > 0 && s[0] == '+' {
        s.skip(1)
    } else {
        s
    };
    if digits.len() > 0 && all_digits(digits) {
        Some(number(digits))
    } else {
        None
    }
}

/// The number of the segment that `file` names: `segment-{n}.m4s`.
pub open spec fn segment_number(file: Seq<char>) -> Option<nat> {
    match strip_prefix(file, "segment-"@) {
        None => None,
        Some(rest) => match strip_suffix(rest, ".m4s"@) {
            None => None,
            Some(n) => spelled_number(n),
        },
    }
}

proof fn lemma_number_grows(digits: Seq<char>, i: int)
    requires
        0 <= i <= digits.len(),
        all_digits(digits),
    ensures
        number(digits.take(i)) <= number(digits),
    decreases digits.len(),
{
    if i < digits.len() {
        let before = digits.drop_last();
        assert(before.take(i) =~= digits.take(i));
        lemma_number_grows(before, i);
    } else {
        assert(digits.take(i) =~= digits);
    }
}

/// Reads a string of digits whose number fits in `usize`.
fn parse_digits(digits: &[char]) -> (r: Option<usize>)
    ensures
        match r {
            Some(n) => all_digits(digits@) && n == number(digits@),
            None => all_digits(digits@) ==> number(digits@) > usize::MAX,
        },
{
    let mut n: usize = 0;
    let mut i: usize = 0;
    while i < digits.len()
        invariant
            i <= digits@.len(),
            forall|k: int| 0 <= k < i ==> is_digit(#[trigger] digits@[k]),
            n == number(digits@.take(i as int)),
        decreases digits@.len() - i,
    {
        let c: char = digits[i];
        if !('0' <= c && c <= '9') {
            assert(!is_digit(digits@[i as int]));
            return None;
        }
        assert(digits@.take(i + 1).drop_last() =~= digits@.take(i as int));
        let d: usize = (c as u32 - 48) as usize;
        if n > (usize::MAX - d) / 10 {
            proof {
                if all_digits(digits@) {
                    lemma_number_grows(digits@, i + 1);
                }
            }
            return None;
        }
        n = 10 * n + d;
        i = i + 1;
    }
    assert(digits@.take(i as int) =~= digits@);
    Some(n)
}

/// Reads a number that fits in `usize`.
fn parse_number(s: &[char]) -> (r: Option<usize>)
    ensures
        match r {
            Some(n) => spelled_number(s@) == Some(n as nat),
            None => match spelled_number(s@) {
                Some(n) => n > usize::MAX,
                None => true,
            },
        },
{
    let digits: &[char] = if s.len() > 0 && s[0] == '+' {
        slice_subrange(s, 1, s.len())
    } else {
        s
    };
    assert(s@.len() > 0 && s@[0] == '+' ==> digits@ =~= s@.skip(1));
    if digits.len() == 0 {
        None
    } else {
        parse_digits(digits)
    }
}

/// Parses `segment-{n}.m4s`.
pub fn segment_index(file: &str) -> (r: Option<usize>)
    ensures
        match r {
            Some(n) => segment_number(file@) == Some(n as nat),
            None => match segment_number(file@) {
                Some(n) => n > usize::MAX,
                None => true,
            },
        },
{
    let chars: Vec<char> = chars_of(file);
    match after_prefix(chars.as_slice(), "segment-") {
        None => None,
        Some(rest) => match before_suffix(rest, ".m4s") {
            None => None,
            Some(n) => parse_number(n),
        },
    }
}

proof fn lemma_decimal(n: nat)
    ensures
        decimal(n).len() > 0,
        all_digits(decimal(n)),
        number(decimal(n)) == n,
    decreases n,
{
    let last = digit((n % 10) as int);
    assert(decimal(n).last() == last && last as int == '0' as int + n % 10);
    if n < 10 {
        assert(decimal(n).drop_last() =~= Seq::empty());
        assert(number(Seq::<char>::empty()) == 0);
    } else {
        lemma_decimal(n / 10);
        assert(decimal(n).drop_last() =~= decimal(n / 10));
        assert forall|i: int| 0 <= i < decimal(n).len() implies is_digit(#[trigger] decimal(n)[i])
            by {
            if i < decimal(n / 10).len() {
                assert(decimal(n)[i] == decimal(n / 10)[i]);
            }
        }
    }
}

// --- resources -----------------------------------------------------------

/// What a file name below a stream asks for.
#[derive(Clone, Copy, PartialEq, Eq, Structural, Debug)]
pub enum Resource {
    Master,
    Media,
    Init,
    Segment(usize),
    Missing,
}

/// The name of the playlist that `file` asks for, without its extension.
pub open spec fn playlist_name(file: Seq<char>) -> Option<Seq<char>> {
    match strip_suffix(file, ".m3u8"@) {
        Some(name) => Some(name),
        None => strip_suffix(file, ".m3u"@),
    }
}

/// What `file` asks for. A segment number that no `usize` holds names no segment.
pub open spec fn resource_of(file: Seq<char>) -> Resource {
    let playlist = playlist_name(file);
    if playlist == Some("master"@) {
        Resource::Master
    } else if playlist == Some("index"@) || playlist == Some("playlist"@) {
        Resource::Media
    } else if file == "init.mp4"@ {
        Resource::Init
    } else {
        match segment_number(file) {
            Some(n) => if n <= usize::MAX {
                Resource::Segment(n as usize)
            } else {
                Resource::Missing
            },
            None => Resource::Missing,
        }
    }
}

/// Works out what `file` asks for.
pub fn resource(file: &str) -> (r: Resource)
    ensures
        r == resource_of(file@),
{
    let chars: Vec<char> = chars_of(file);
    let playlist: Option<&[char]> = match before_suffix(chars.as_slice(), ".m3u8") {
        Some(name) => Some(name),
        None => before_suffix(chars.as_slice(), ".m3u"),
    };
    if let Some(name) = playlist {
        if is_word(name, "master") {
            return Resource::Master;
        }
        if is_word(name, "index") || is_word(name, "playlist") {
            return Resource::Media;
        }
    }
    if is_word(chars.as_slice(), "init.mp4") {
        return Resource::Init;
    }
    match segment_index(file) {
        Some(n) => Resource::Segment(n),
        None => Resource::Missing,
    }
}

/// The name that the media playlist gives a segment leads back to that segment.
pub proof fn law_segment_names_lead_back(n: nat)
    ensures
        segment_number("segment-"@ + decimal(n) + ".m4s"@) == Some(n),
        n <= usize::MAX ==> resource_of("segment-"@ + decimal(n) + ".m4s"@) == Resource::Segment(
            n as usize,
        ),
{
    let digits = decimal(n);
    let rest = digits + ".m4s"@;
    let file = "segment-"@ + digits + ".m4s"@;
    lemma_decimal(n);
    assert(file =~= "segment-"@ + rest);
    assert("segment-"@ =~= file.subrange(0, "segment-"@.len() as int));
    assert(file.skip("segment-"@.len() as int) =~= rest);
    assert(".m4s"@ =~= rest.subrange(digits.len() as int, rest.len() as int));
    assert(rest.take(digits.len() as int) =~= digits);
    assert(is_digit(digits[0]));
    reveal_strlit(".m4s");
    reveal_strlit(".m3u");
    reveal_strlit(".m3u8");
    reveal_strlit("init.mp4");
    assert(file.last() == 's');
    if ".m3u8"@.is_suffix_of(file) {
        assert(file.subrange(file.len() - 5, file.len() as int)[4] == '8');
    }
    if ".m3u"@.is_suffix_of(file) {
        assert(file.subrange(file.len() - 4, file.len() as int)[3] == 'u');
    }
    assert("init.mp4"@.last() == '4');
}

/// `.m3u` works everywhere `.m3u8` does.
pub proof fn law_m3u_is_m3u8(name: Seq<char>)
    ensures
        resource_of(name + ".m3u"@) == resource_of(name + ".m3u8"@),
{
    reveal_strlit(".m3u");
    reveal_strlit(".m3u8");
    reveal_strlit(".m4s");
    reveal_strlit("init.mp4");
    reveal_strlit("segment-");
    let short = name + ".m3u"@;
    let long = name + ".m3u8"@;
    assert(short.last() == 'u' && long.last() == '8');
    assert(short.subrange(name.len() as int, short.len() as int) =~= ".m3u"@);
    assert(long.subrange(name.len() as int, long.len() as int) =~= ".m3u8"@);
    assert(short.take(name.len() as int) =~= name);
    assert(long.take(name.len() as int) =~= name);
    if ".m3u8"@.is_suffix_of(short) {
        assert(short.subrange(short.len() - 5, short.len() as int)[4] == '8');
    }
    assert("init.mp4"@.last() == '4');
    lemma_no_segment(short);
    lemma_no_segment(long);
}

proof fn lemma_no_segment(file: Seq<char>)
    requires
        file.len() > 0,
        file.last() != 's',
    ensures
        segment_number(file) is None,
{
    reveal_strlit(".m4s");
    if let Some(rest) = strip_prefix(file, "segment-"@) {
        if ".m4s"@.is_suffix_of(rest) {
            assert(rest.subrange(rest.len() - 4, rest.len() as int)[3] == 's');
            assert(rest.last() == file.last());
        }
    }
}

impl Resource {
    /// The content type that the resource is served under.
    pub fn content_type(&self) -> (r: &'static str)
        ensures
            r@ == (match *self {
                Resource::Master | Resource::Media => "application/vnd.apple.mpegurl"@,
                Resource::Init => "video/mp4"@,
                Resource::Segment(_) => "video/iso.segment"@,
                Resource::Missing => "text/plain; charset=utf-8"@,
            }),
    {
        match *self {
            Resource::Master | Resource::Media => "application/vnd.apple.mpegurl",
            Resource::Init => "video/mp4",
            Resource::Segment(_) => "video/iso.segment",
            Resource::Missing => "text/plain; charset=utf-8",
        }
    }

    /// How long the resource may be cached, if it may. Playlists are cheap to rebuild and
    /// follow the file; segments never change for a given revision, so they can sit in
    /// a cache for a long time.
    pub fn cache_control(&self) -> (r: Option<&'static str>)
        ensures
            match (*self, r) {
                (Resource::Missing, None) => true,
                (Resource::Master, Some(text)) => text@ == "public, max-age=10"@,
                (Resource::Media, Some(text)) => text@ == "public, max-age=10"@,
                (Resource::Init, Some(text)) => text@ == "public, max-age=31536000, immutable"@,
                (Resource::Segment(_), Some(text)) => text@
                    == "public, max-age=31536000, immutable"@,
                _ => false,
            },
    {
        match *self {
            Resource::Master | Resource::Media => Some("public, max-age=10"),
            Resource::Init | Resource::Segment(_) => Some("public, max-age=31536000, immutable"),
            Resource::Missing => None,
        }
    }
}

/// The path that the resources of stream `name` lie under. Playlists reference siblings
/// by absolute path so they survive being fetched through a proxy or saved by a
/// downloader.
pub fn base_path(name: &str) -> (r: String)
    ensures
        r@ == "/api/stream/"@ + name@,
{
    let mut out: String = "/api/stream/".to_owned();
    out.append(name);
    out
}

// --- failures ------------------------------------------------------------

/// Why a request cannot be served.
pub enum Failure {
    /// The file is not there.
    NotFound,
    /// The file is not a usable MP4.
    InvalidData(String),
    /// Anything else.
    Other,
}

impl Failure {
    /// Maps a packaging failure onto a status code and a text. A file that is missing or
    /// not a usable MP4 is a client error; anything else is ours.
    pub fn answer(&self) -> (r: (u16, String))
        ensures
            match *self {
                Failure::NotFound => r.0 == 404 && r.1@ == "not found\n"@,
                Failure::InvalidData(text) => r.0 == 422 && r.1@ == text@ + "\n"@,
                Failure::Other => r.0 == 500 && r.1@ == "internal error\n"@,
            },
    {
        match self {
            Failure::NotFound => (404, "not found\n".to_owned()),
            Failure::InvalidData(text) => {
                let mut out: String = text.as_str().to_owned();
                out.append("\n");
                (422, out)
            },
            Failure::Other => (500, "internal error\n".to_owned()),
        }
    }
}

} // verus!
