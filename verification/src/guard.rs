//! Which file below the served directory a request path stands for, and which are
//! refused.

use vstd::prelude::*;
use vstd::slice::slice_subrange;
use vstd::string::*;
use vstd::utf8::{decode_utf8, valid_utf8};

use crate::text::{chars_of, is_word, string_of};

verus! {

// --- percent-encoding ----------------------------------------------------

/// The value of an ASCII hexadecimal digit.
pub open spec fn hex_digit(b: u8) -> Option<u8> {
    if 0x30 <= b <= 0x39 {
        Some((b - 0x30) as u8)
    } else if 0x41 <= b <= 0x46 {
        Some((b - 0x41 + 10) as u8)
    } else if 0x61 <= b <= 0x66 {
        Some((b - 0x61 + 10) as u8)
    } else {
        None
    }
}

/// `bytes` with each `%` and two hexadecimal digits behind it replaced by the byte that
/// the digits name. Any other `%` stands for itself.
pub open spec fn unquoted(bytes: Seq<u8>) -> Seq<u8>
    decreases bytes.len(),
{
    if bytes.len() == 0 {
        Seq::empty()
    } else if bytes.len() >= 3 && bytes[0] == 0x25 && hex_digit(bytes[1]) is Some && hex_digit(
        bytes[2],
    ) is Some {
        let byte = (16 * hex_digit(bytes[1])->0 + hex_digit(bytes[2])->0) as u8;
        seq![byte] + unquoted(bytes.skip(3))
    } else {
        seq![bytes[0]] + unquoted(bytes.skip(1))
    }
}

/// Calls `percent_encoding::percent_decode_str` and `decode_utf8` on what it returns:
/// the text whose UTF-8 encoding the decoded bytes are, if there is one.
#[verifier::external_body]
fn percent_decode(text: &str) -> (r: Option<String>)
    ensures
        match r {
            Some(decoded) => valid_utf8(unquoted(text.spec_bytes())) && decoded@ == decode_utf8(
                unquoted(text.spec_bytes()),
            ),
            None => !valid_utf8(unquoted(text.spec_bytes())),
        },
{
    percent_encoding::percent_decode_str(text).decode_utf8().ok().map(|s| s.into_owned())
}

// --- path components -----------------------------------------------------

/// `s` without the slashes at its start.
pub open spec fn trim_slashes(s: Seq<char>) -> Seq<char>
    decreases s.len(),
{
    if s.len() > 0 && s[0] == '/' {
        trim_slashes(s.skip(1))
    } else {
        s
    }
}

/// How the system writes paths.
#[derive(Clone, Copy, PartialEq, Eq, Structural, Debug)]
pub enum PathStyle {
    /// Parted by `/`.
    Unix,
    /// Parted by `/` or `\`, and perhaps behind a drive letter.
    Windows,
}

/// Whether `c` parts a path.
pub open spec fn is_separator(style: PathStyle, c: char) -> bool {
    c == '/' || (style == PathStyle::Windows && c == '\\')
}

/// Whether `path` starts from the root or from a drive. What names a server or a device on
/// Windows starts with separators too.
pub open spec fn is_anchored(style: PathStyle, path: Seq<char>) -> bool {
    ||| path.len() > 0 && is_separator(style, path[0])
    ||| style == PathStyle::Windows && path.len() > 1 && path[1] == ':' && is_letter(path[0])
}

/// Whether `c` is an ASCII letter.
pub open spec fn is_letter(c: char) -> bool {
    ('a' <= c && c <= 'z') || ('A' <= c && c <= 'Z')
}

/// The pieces of `s` between separators, empty ones included.
pub open spec fn pieces(style: PathStyle, s: Seq<char>) -> Seq<Seq<char>>
    decreases s.len(),
{
    if s.len() == 0 {
        seq![Seq::empty()]
    } else if is_separator(style, s.last()) {
        pieces(style, s.drop_last()).push(Seq::empty())
    } else {
        let before = pieces(style, s.drop_last());
        before.drop_last().push(before.last().push(s.last()))
    }
}

fn separator(style: PathStyle, c: char) -> (r: bool)
    ensures
        r == is_separator(style, c),
{
    c == '/' || (style == PathStyle::Windows && c == '\\')
}

fn anchored(style: PathStyle, path: &[char]) -> (r: bool)
    ensures
        r == is_anchored(style, path@),
{
    if path.len() > 0 && separator(style, path[0]) {
        return true;
    }
    style == PathStyle::Windows && path.len() > 1 && path[1] == ':' && (('a' <= path[0] && path[0]
        <= 'z') || ('A' <= path[0] && path[0] <= 'Z'))
}

/// The names in a list of pieces. Empty pieces and `.` are skipped; `..` spoils the
/// whole.
pub open spec fn names_of(list: Seq<Seq<char>>) -> Option<Seq<Seq<char>>>
    decreases list.len(),
{
    if list.len() == 0 {
        Some(Seq::empty())
    } else {
        let last = list.last();
        match names_of(list.drop_last()) {
            None => None,
            Some(before) => if last == ".."@ {
                None
            } else if last.len() == 0 || last == "."@ {
                Some(before)
            } else {
                Some(before.push(last))
            },
        }
    }
}

/// The names that a relative path goes through. A path from the root or from a drive has
/// none, nor has one that steps up.
pub open spec fn components(style: PathStyle, path: Seq<char>) -> Option<Seq<Seq<char>>> {
    if is_anchored(style, path) {
        None
    } else {
        names_of(pieces(style, path))
    }
}

/// The names, below the served directory, that a request for `path` goes through, given
/// what decoding made of the path.
pub open spec fn requested(
    style: PathStyle,
    decoded: Option<Seq<char>>,
) -> Option<Seq<Seq<char>>> {
    match decoded {
        None => None,
        Some(path) => components(style, path),
    }
}

/// What the bytes of a text decode to, if they are the UTF-8 encoding of a text.
pub open spec fn decoded_text(bytes: Seq<u8>) -> Option<Seq<char>> {
    if valid_utf8(unquoted(bytes)) {
        Some(decode_utf8(unquoted(bytes)))
    } else {
        None
    }
}

/// What the elements of `list` hold.
pub open spec fn piece_views(list: Seq<Vec<char>>) -> Seq<Seq<char>> {
    list.map_values(|p: Vec<char>| p@)
}

/// What the elements of `list` hold.
pub open spec fn name_views(list: Seq<String>) -> Seq<Seq<char>> {
    list.map_values(|s: String| s@)
}

proof fn lemma_pieces(style: PathStyle, s: Seq<char>)
    ensures
        pieces(style, s).len() > 0,
        forall|i: int, k: int|
            0 <= i < pieces(style, s).len() && 0 <= k < pieces(style, s)[i].len()
                ==> !is_separator(style, #[trigger] pieces(style, s)[i][k]),
    decreases s.len(),
{
    if s.len() > 0 {
        lemma_pieces(style, s.drop_last());
    }
}

fn split(style: PathStyle, s: &[char]) -> (r: Vec<Vec<char>>)
    ensures
        piece_views(r@) == pieces(style, s@),
{
    let mut done: Vec<Vec<char>> = Vec::new();
    let mut piece: Vec<char> = Vec::new();
    let mut i: usize = 0;
    assert(s@.take(0) =~= Seq::empty());
    assert(piece_views(done@).push(piece@) =~= pieces(style, s@.take(0)));
    while i < s.len()
        invariant
            i <= s@.len(),
            piece_views(done@).push(piece@) == pieces(style, s@.take(i as int)),
        decreases s@.len() - i,
    {
        let c: char = s[i];
        let ghost list = piece_views(done@);
        let ghost last = piece@;
        assert(s@.take(i + 1).drop_last() =~= s@.take(i as int));
        if separator(style, c) {
            done.push(piece);
            piece = Vec::new();
            assert(piece@ =~= Seq::empty());
            assert(piece_views(done@) =~= list.push(last));
        } else {
            piece.push(c);
            assert(list.push(last).drop_last() =~= list);
        }
        assert(piece_views(done@).push(piece@) =~= pieces(style, s@.take(i + 1)));
        i = i + 1;
    }
    assert(s@.take(i as int) =~= s@);
    let ghost list = piece_views(done@);
    let ghost last = piece@;
    done.push(piece);
    assert(piece_views(done@) =~= list.push(last));
    done
}

fn keep_names(list: &[Vec<char>]) -> (r: Option<Vec<String>>)
    ensures
        match r {
            Some(names) => names_of(piece_views(list@)) == Some(name_views(names@)),
            None => names_of(piece_views(list@)) is None,
        },
{
    let ghost views = piece_views(list@);
    let mut names: Vec<String> = Vec::new();
    let mut i: usize = 0;
    assert(name_views(names@) =~= Seq::empty());
    assert(views.take(0) =~= Seq::empty());
    while i < list.len()
        invariant
            i <= list@.len() == views.len(),
            views == piece_views(list@),
            names_of(views.take(i as int)) == Some(name_views(names@)),
        decreases list@.len() - i,
    {
        let piece: &[char] = list[i].as_slice();
        assert(views.take(i + 1).drop_last() =~= views.take(i as int));
        assert(views[i as int] == piece@);
        if is_word(piece, "..") {
            proof {
                lemma_spoiled(views, i + 1);
            }
            return None;
        }
        if piece.len() > 0 && !is_word(piece, ".") {
            let name: String = string_of(piece);
            let ghost before = name_views(names@);
            names.push(name);
            assert(name_views(names@) =~= before.push(name@));
        }
        i = i + 1;
    }
    assert(views.take(i as int) =~= views);
    Some(names)
}

proof fn lemma_spoiled(list: Seq<Seq<char>>, i: int)
    requires
        0 <= i <= list.len(),
        names_of(list.take(i)) is None,
    ensures
        names_of(list) is None,
    decreases list.len(),
{
    if i < list.len() {
        assert(list.drop_last().take(i) =~= list.take(i));
        lemma_spoiled(list.drop_last(), i);
    } else {
        assert(list.take(i) =~= list);
    }
}

/// Splits a relative path into the names that it goes through, and refuses one that starts
/// from the root or from a drive, or that steps up.
pub fn path_components(style: PathStyle, path: &str) -> (r: Option<Vec<String>>)
    ensures
        match r {
            Some(names) => components(style, path@) == Some(name_views(names@)),
            None => components(style, path@) is None,
        },
{
    let chars: Vec<char> = chars_of(path);
    if anchored(style, chars.as_slice()) {
        return None;
    }
    let list: Vec<Vec<char>> = split(style, chars.as_slice());
    keep_names(list.as_slice())
}

/// Resolves the path of a request to the names that it goes through below the served
/// directory, and refuses what could lead out of it: a path that does not decode, that
/// starts from the root or from a drive, or that steps up.
pub fn requested_names(style: PathStyle, path: &str) -> (r: Option<Vec<String>>)
    ensures
        ({
            let bytes = vstd::utf8::encode_utf8(trim_slashes(path@));
            match r {
                Some(names) => requested(style, decoded_text(bytes)) == Some(name_views(names@)),
                None => requested(style, decoded_text(bytes)) is None,
            }
        }),
{
    let chars: Vec<char> = chars_of(path);
    let mut i: usize = 0;
    assert(chars@.skip(0) =~= chars@);
    while i < chars.len() && chars[i] == '/'
        invariant
            i <= chars@.len(),
            trim_slashes(chars@.skip(i as int)) == trim_slashes(chars@),
        decreases chars@.len() - i,
    {
        assert(chars@.skip(i as int).skip(1) =~= chars@.skip(i + 1));
        assert(chars@.skip(i as int)[0] == '/');
        i = i + 1;
    }
    let rest = slice_subrange(chars.as_slice(), i, chars.len());
    assert(rest@ =~= chars@.skip(i as int));
    assert(rest@ == trim_slashes(path@)) by {
        if i < chars@.len() {
            assert(rest@[0] != '/');
        }
    }
    let relative: String = string_of(rest);
    match percent_decode(relative.as_str()) {
        None => None,
        Some(decoded) => path_components(style, decoded.as_str()),
    }
}

/// No accepted path leads out of the served directory by its names: each is a single
/// component, and none is empty, `.` or `..`.
pub proof fn law_components_stay_below(style: PathStyle, path: Seq<char>)
    ensures
        match components(style, path) {
            None => true,
            Some(names) => forall|i: int|
                0 <= i < names.len() ==> {
                    &&& (#[trigger] names[i]).len() > 0
                    &&& names[i] != "."@
                    &&& names[i] != ".."@
                    &&& forall|k: int|
                        0 <= k < names[i].len() ==> !is_separator(style, #[trigger] names[i][k])
                },
        },
{
    lemma_pieces(style, path);
    lemma_names(pieces(style, path));
}

proof fn lemma_names(list: Seq<Seq<char>>)
    ensures
        match names_of(list) {
            None => true,
            Some(names) => forall|i: int|
                0 <= i < names.len() ==> {
                    &&& (#[trigger] names[i]).len() > 0
                    &&& names[i] != "."@
                    &&& names[i] != ".."@
                    &&& list.contains(names[i])
                },
        },
    decreases list.len(),
{
    if list.len() > 0 {
        let rest = list.drop_last();
        lemma_names(rest);
        if let Some(names) = names_of(list) {
            assert forall|i: int| 0 <= i < names.len() implies list.contains(#[trigger] names[i]) by {
                let before = names_of(rest)->0;
                if i < before.len() {
                    assert(names[i] == before[i]);
                    let k = choose|k: int| 0 <= k < rest.len() && rest[k] == before[i];
                    assert(list[k] == names[i]);
                } else {
                    assert(list[list.len() - 1] == names[i]);
                }
            }
        }
    }
}

/// A path that steps up anywhere is refused.
pub proof fn law_stepping_up_is_refused(style: PathStyle, path: Seq<char>)
    requires
        pieces(style, path).contains(".."@),
    ensures
        components(style, path) is None,
{
    let list = pieces(style, path);
    let k = choose|k: int| 0 <= k < list.len() && list[k] == ".."@;
    assert(list.take(k + 1).last() == ".."@);
    lemma_spoiled(list, k + 1);
}

// --- symbolic links ------------------------------------------------------

/// What the elements of `path` hold.
pub open spec fn byte_views(path: Seq<Vec<u8>>) -> Seq<Seq<u8>> {
    path.map_values(|p: Vec<u8>| p@)
}

/// Whether the resolved path lies inside the directory: its components start with those
/// of the directory. A symbolic link that points elsewhere does not.
pub fn is_inside(dir: &[Vec<u8>], resolved: &[Vec<u8>]) -> (r: bool)
    ensures
        r == byte_views(dir@).is_prefix_of(byte_views(resolved@)),
{
    let ghost a = byte_views(dir@);
    let ghost b = byte_views(resolved@);
    if dir.len() > resolved.len() {
        return false;
    }
    let mut i: usize = 0;
    while i < dir.len()
        invariant
            i <= dir@.len() == a.len(),
            a.len() <= b.len() == resolved@.len(),
            a == byte_views(dir@),
            b == byte_views(resolved@),
            forall|k: int| 0 <= k < i ==> #[trigger] a[k] == b[k],
        decreases dir@.len() - i,
    {
        assert(a[i as int] == dir@[i as int]@ && b[i as int] == resolved@[i as int]@);
        if !same_bytes(dir[i].as_slice(), resolved[i].as_slice()) {
            assert(b.subrange(0, a.len() as int)[i as int] != a[i as int]);
            return false;
        }
        i = i + 1;
    }
    assert(a =~= b.subrange(0, a.len() as int));
    true
}

fn same_bytes(a: &[u8], b: &[u8]) -> (r: bool)
    ensures
        r == (a@ == b@),
{
    if a.len() != b.len() {
        return false;
    }
    let mut i: usize = 0;
    while i < a.len()
        invariant
            i <= a@.len() == b@.len(),
            forall|k: int| 0 <= k < i ==> #[trigger] a@[k] == b@[k],
        decreases a@.len() - i,
    {
        if a[i] != b[i] {
            return false;
        }
        i = i + 1;
    }
    assert(a@ =~= b@);
    true
}

// --- what paths lead to --------------------------------------------------

/// The path that goes through `list`, with `separator` between each two.
pub open spec fn path_through(list: Seq<Seq<char>>, separator: char) -> Seq<char>
    decreases list.len(),
{
    if list.len() == 0 {
        Seq::empty()
    } else if list.len() == 1 {
        list[0]
    } else {
        path_through(list.drop_last(), separator) + seq![separator] + list.last()
    }
}

proof fn lemma_pieces_append(style: PathStyle, a: Seq<char>, l: Seq<char>)
    requires
        forall|i: int| 0 <= i < l.len() ==> !is_separator(style, #[trigger] l[i]),
    ensures
        pieces(style, a).len() > 0,
        pieces(style, a + l) == pieces(style, a).drop_last().push(pieces(style, a).last() + l),
    decreases l.len(),
{
    lemma_pieces(style, a);
    let head = pieces(style, a);
    if l.len() == 0 {
        assert(a + l =~= a);
        assert(head.last() + l =~= head.last());
        assert(head.drop_last().push(head.last()) =~= head);
    } else {
        let rest = l.drop_last();
        assert forall|i: int| 0 <= i < rest.len() implies !is_separator(
            style,
            #[trigger] rest[i],
        ) by {
            assert(rest[i] == l[i]);
        }
        lemma_pieces_append(style, a, rest);
        assert((a + l).drop_last() =~= a + rest);
        assert(!is_separator(style, l[l.len() - 1]));
        let before = pieces(style, a + rest);
        assert(before.drop_last() =~= head.drop_last());
        assert((head.last() + rest).push(l.last()) =~= head.last() + l);
        assert(pieces(style, a + l) =~= head.drop_last().push(head.last() + l));
    }
}

proof fn lemma_pieces_of_path(style: PathStyle, list: Seq<Seq<char>>, separator: char)
    requires
        list.len() > 0,
        is_separator(style, separator),
        forall|i: int, k: int|
            0 <= i < list.len() && 0 <= k < list[i].len() ==> !is_separator(
                style,
                #[trigger] list[i][k],
            ),
    ensures
        pieces(style, path_through(list, separator)) == list,
    decreases list.len(),
{
    let none = Seq::<char>::empty();
    let last = list[list.len() - 1];
    assert forall|i: int| 0 <= i < last.len() implies !is_separator(style, #[trigger] last[i]) by {
        assert(!is_separator(style, list[list.len() - 1][i]));
    }
    if list.len() == 1 {
        lemma_pieces_append(style, none, last);
        assert(none + last =~= last);
        assert(pieces(style, none) =~= seq![none]);
        assert(pieces(style, last) =~= list);
    } else {
        let rest = list.drop_last();
        assert forall|i: int, k: int|
            0 <= i < rest.len() && 0 <= k < rest[i].len() implies !is_separator(
            style,
            #[trigger] rest[i][k],
        ) by {
            assert(!is_separator(style, list[i][k]));
        }
        lemma_pieces_of_path(style, rest, separator);
        let head = path_through(rest, separator);
        let parted = head + seq![separator];
        assert(parted.drop_last() =~= head);
        assert(pieces(style, parted) == rest.push(none));
        lemma_pieces_append(style, parted, last);
        assert(rest.push(none).drop_last() =~= rest);
        assert(none + last =~= last);
        assert(rest.push(last) =~= list);
    }
}

proof fn lemma_kept_names(list: Seq<Seq<char>>)
    ensures
        list.contains(".."@) ==> names_of(list) is None,
        !list.contains(".."@) ==> names_of(list) == Some(
            list.filter(|p: Seq<char>| p.len() > 0 && p != "."@),
        ),
    decreases list.len(),
{
    let keep = |p: Seq<char>| p.len() > 0 && p != "."@;
    reveal(Seq::filter);
    if list.len() > 0 {
        let rest = list.drop_last();
        lemma_kept_names(rest);
        if list.contains(".."@) {
            let k = choose|k: int| 0 <= k < list.len() && list[k] == ".."@;
            if k < rest.len() {
                assert(rest[k] == ".."@);
            }
        } else {
            assert forall|k: int| 0 <= k < rest.len() implies #[trigger] rest[k] != ".."@ by {
                assert(list.contains(list[k]));
            }
            assert(list.contains(list[list.len() - 1]));
        }
    }
}

/// A relative path goes through the pieces that it was put together from, in order. Empty
/// pieces and `.` go nowhere, and one `..` spoils the whole. On Windows, `\` parts a path
/// as `/` does.
pub proof fn law_paths_go_through_their_pieces(
    style: PathStyle,
    list: Seq<Seq<char>>,
    separator: char,
)
    requires
        list.len() > 0,
        separator == '/' || (style == PathStyle::Windows && separator == '\\'),
        forall|i: int| 0 <= i < list.len() ==> !(#[trigger] list[i]).contains('/'),
        style == PathStyle::Windows ==> forall|i: int|
            0 <= i < list.len() ==> !(#[trigger] list[i]).contains('\\'),
        !is_anchored(style, path_through(list, separator)),
    ensures
        list.contains(".."@) ==> components(style, path_through(list, separator)) is None,
        !list.contains(".."@) ==> components(style, path_through(list, separator)) == Some(
            list.filter(|p: Seq<char>| p.len() > 0 && p != "."@),
        ),
{
    assert forall|i: int, k: int| 0 <= i < list.len() && 0 <= k < list[i].len() implies
        !is_separator(style, #[trigger] list[i][k]) by {
        assert(list[i].contains(list[i][k]));
    }
    lemma_pieces_of_path(style, list, separator);
    lemma_kept_names(list);
}

/// Which paths are refused for where they start: those that start with a slash, and on
/// Windows those that start with a backslash or with a drive letter and a colon.
pub proof fn law_anchored_paths_are_refused(style: PathStyle, path: Seq<char>)
    ensures
        path.len() > 0 && path[0] == '/' ==> components(style, path) is None,
        style == PathStyle::Windows && path.len() > 0 && path[0] == '\\' ==> components(
            style,
            path,
        ) is None,
        style == PathStyle::Windows && path.len() > 1 && path[1] == ':' && ('a' <= path[0] <= 'z'
            || 'A' <= path[0] <= 'Z') ==> components(style, path) is None,
        path.len() == 0 ==> !is_anchored(style, path),
        style == PathStyle::Unix && path.len() > 0 && path[0] != '/' ==> !is_anchored(style, path),
        style == PathStyle::Windows && path.len() > 0 && path[0] != '/' && path[0] != '\\' && (
        path.len() == 1 || path[1] != ':') ==> !is_anchored(style, path),
{
}

/// All slashes at the start of a path are trimmed, and nothing else.
pub proof fn law_trimming_takes_the_slashes(path: Seq<char>)
    ensures
        trim_slashes(path).is_suffix_of(path),
        trim_slashes(path).len() > 0 ==> trim_slashes(path)[0] != '/',
        forall|i: int| 0 <= i < path.len() - trim_slashes(path).len() ==> #[trigger] path[i] == '/',
    decreases path.len(),
{
    if path.len() > 0 && path[0] == '/' {
        let rest = path.skip(1);
        law_trimming_takes_the_slashes(rest);
        let kept = trim_slashes(path);
        assert(kept =~= path.subrange(path.len() - kept.len(), path.len() as int));
        assert forall|i: int| 0 <= i < path.len() - kept.len() implies #[trigger] path[i] == '/' by {
            if i > 0 {
                assert(rest[i - 1] == path[i]);
            }
        }
    } else {
        assert(path =~= path.subrange(0, path.len() as int));
    }
}

/// The ASCII digit of a value below 16, in either case.
pub open spec fn quoted_digit(v: int, capital: bool) -> u8 {
    if v < 10 {
        (0x30 + v) as u8
    } else if capital {
        (0x41 + v - 10) as u8
    } else {
        (0x61 + v - 10) as u8
    }
}

/// `bytes` with each byte written as a `%` and two hexadecimal digits.
pub open spec fn quoted(bytes: Seq<u8>, capital: bool) -> Seq<u8>
    decreases bytes.len(),
{
    if bytes.len() == 0 {
        Seq::empty()
    } else {
        seq![
            0x25u8,
            quoted_digit(bytes[0] as int / 16, capital),
            quoted_digit(bytes[0] as int % 16, capital),
        ] + quoted(bytes.skip(1), capital)
    }
}

/// Decoding undoes encoding, with digits of either case, and leaves bytes alone that are
/// not encoded.
pub proof fn law_quoting_is_undone(bytes: Seq<u8>, capital: bool)
    ensures
        unquoted(quoted(bytes, capital)) == bytes,
        !bytes.contains(0x25u8) ==> unquoted(bytes) == bytes,
    decreases bytes.len(),
{
    if bytes.len() > 0 {
        let rest = bytes.skip(1);
        law_quoting_is_undone(rest, capital);
        assert(seq![bytes[0]] + rest =~= bytes);
        let text = quoted(bytes, capital);
        assert(text.skip(3) =~= quoted(rest, capital));
        if !bytes.contains(0x25u8) {
            assert(bytes.contains(bytes[0]));
            assert forall|i: int| 0 <= i < rest.len() implies #[trigger] rest[i] != 0x25u8 by {
                assert(rest[i] == bytes[i + 1]);
                assert(bytes.contains(bytes[i + 1]));
            }
        }
    }
}

} // verus!
