//! Stream names: which file a name stands for, and which files have a name.

use vstd::prelude::*;
use vstd::string::*;

use crate::text::{before_suffix, chars_of, string_of, strip_suffix};

verus! {

/// `name` without the extension that it may carry.
pub open spec fn bare_name(name: Seq<char>) -> Seq<char> {
    match strip_suffix(name, ".mp4"@) {
        Some(bare) => bare,
        None => name,
    }
}

/// Whether `c` could lead out of a directory, or cut a path short.
pub open spec fn is_unsafe(c: char) -> bool {
    c == '/' || c == '\\' || c == '\0'
}

/// Whether `name` is a plain file name, not hidden and without two dots in a row.
pub open spec fn is_plain(name: Seq<char>) -> bool {
    &&& name.len() > 0
    &&& name[0] != '.'
    &&& forall|i: int| 0 <= i < name.len() ==> !is_unsafe(#[trigger] name[i])
    &&& forall|i: int|
        0 <= i < name.len() - 1 ==> !(#[trigger] name[i] == '.' && name[i + 1] == '.')
}

/// The file that holds stream `name`, inside the stream directory.
pub open spec fn source_file(name: Seq<char>) -> Option<Seq<char>> {
    if is_plain(bare_name(name)) {
        Some(bare_name(name) + ".mp4"@)
    } else {
        None
    }
}

fn plain(name: &[char]) -> (r: bool)
    ensures
        r == is_plain(name@),
{
    if name.len() == 0 || name[0] == '.' {
        return false;
    }
    let mut i: usize = 0;
    while i < name.len()
        invariant
            i <= name@.len(),
            forall|k: int| 0 <= k < i ==> !is_unsafe(#[trigger] name@[k]),
            forall|k: int|
                0 <= k < i && k < name@.len() - 1 ==> !(#[trigger] name@[k] == '.' && name@[k + 1]
                    == '.'),
        decreases name@.len() - i,
    {
        let c: char = name[i];
        if c == '/' || c == '\\' || c == '\0' {
            assert(is_unsafe(name@[i as int]));
            return false;
        }
        if c == '.' && i < name.len() - 1 && name[i + 1] == '.' {
            assert(name@[i as int] == '.' && name@[i + 1] == '.');
            return false;
        }
        i = i + 1;
    }
    true
}

/// Resolves a stream name to the name of its source file, refusing anything that is
/// not a plain file name directly inside the stream directory.
pub fn source(name: &str) -> (r: Option<String>)
    ensures
        match r {
            Some(file) => source_file(name@) == Some(file@),
            None => source_file(name@) is None,
        },
{
    let chars: Vec<char> = chars_of(name);
    let bare: &[char] = match before_suffix(chars.as_slice(), ".mp4") {
        Some(bare) => bare,
        None => chars.as_slice(),
    };
    if !plain(bare) {
        return None;
    }
    let mut file: String = string_of(bare);
    file.append(".mp4");
    Some(file)
}

/// A resolved file is a single path component that is not hidden: no separator, no NUL,
/// no leading dot, so neither `.` nor `..`.
pub proof fn law_sources_stay_inside(name: Seq<char>)
    ensures
        match source_file(name) {
            Some(file) => {
                &&& file.len() > 4
                &&& file[0] != '.'
                &&& forall|i: int| 0 <= i < file.len() ==> !is_unsafe(#[trigger] file[i])
                &&& ".mp4"@.is_suffix_of(file)
            },
            None => true,
        },
{
    reveal_strlit(".mp4");
    if let Some(file) = source_file(name) {
        let bare = bare_name(name);
        assert(file[0] == bare[0]);
        assert forall|i: int| 0 <= i < file.len() implies !is_unsafe(#[trigger] file[i]) by {
            if i < bare.len() {
                assert(file[i] == bare[i]);
            }
        }
        assert(".mp4"@ =~= file.subrange(bare.len() as int, file.len() as int));
    }
}

/// The extension is optional: a name that does not carry it resolves to the same file
/// with it.
pub proof fn law_extension_is_optional(name: Seq<char>)
    requires
        strip_suffix(name, ".mp4"@) is None,
    ensures
        source_file(name + ".mp4"@) == source_file(name),
{
    let full = name + ".mp4"@;
    assert(".mp4"@ =~= full.subrange(name.len() as int, full.len() as int));
    assert(full.take(name.len() as int) =~= name);
}

/// The stream that `file` holds: what stands before its extension, if that name leads
/// back to the file.
pub open spec fn stream_of(file: Seq<char>) -> Option<Seq<char>> {
    match strip_suffix(file, ".mp4"@) {
        Some(stem) => if source_file(stem) == Some(file) {
            Some(stem)
        } else {
            None
        },
        None => None,
    }
}

/// Finds the stream name (file stem) of a file in the stream directory, if it is a
/// source that can be asked for by that name.
pub fn stream_name(file: &str) -> (r: Option<String>)
    ensures
        match r {
            Some(name) => stream_of(file@) == Some(name@),
            None => stream_of(file@) is None,
        },
{
    let chars: Vec<char> = chars_of(file);
    let stem: &[char] = match before_suffix(chars.as_slice(), ".mp4") {
        Some(stem) => stem,
        None => return None,
    };
    proof {
        lemma_stem(file@);
    }
    // A stem that ends in `.mp4` itself would stand for another file.
    if before_suffix(stem, ".mp4").is_some() || !plain(stem) {
        return None;
    }
    Some(string_of(stem))
}

proof fn lemma_stem(file: Seq<char>)
    ensures
        match strip_suffix(file, ".mp4"@) {
            Some(stem) => {
                &&& stem + ".mp4"@ == file
                &&& source_file(stem) == Some(file) <==> strip_suffix(stem, ".mp4"@) is None
                    && is_plain(stem)
            },
            None => true,
        },
{
    reveal_strlit(".mp4");
    if let Some(stem) = strip_suffix(file, ".mp4"@) {
        assert(stem + ".mp4"@ =~= file);
        if let Some(bare) = strip_suffix(stem, ".mp4"@) {
            assert((bare + ".mp4"@).len() < file.len());
        }
    }
}

/// Every listed stream is available: its name resolves to the file that it was listed for.
pub proof fn law_listed_streams_resolve(file: Seq<char>)
    ensures
        match stream_of(file) {
            Some(name) => source_file(name) == Some(file) && file == name + ".mp4"@,
            None => true,
        },
{
    lemma_stem(file);
}

/// Every file that a name without the extension resolves to is listed under that name.
pub proof fn law_available_streams_are_listed(name: Seq<char>)
    requires
        strip_suffix(name, ".mp4"@) is None,
        source_file(name) is Some,
    ensures
        stream_of(source_file(name)->0) == Some(name),
{
    let file = source_file(name)->0;
    assert(".mp4"@ =~= file.subrange(name.len() as int, file.len() as int));
    assert(file.take(name.len() as int) =~= name);
}

/// Which names resolve: those that are not empty, not hidden, without separators and NUL and
/// without two dots in a row. They resolve to themselves with the extension.
pub proof fn law_plain_names_resolve(name: Seq<char>)
    requires
        strip_suffix(name, ".mp4"@) is None,
    ensures
        source_file(name) == (if name.len() > 0 && name[0] != '.' && !name.contains('/')
            && !name.contains('\\') && !name.contains('\0') && (forall|i: int|
            0 <= i < name.len() - 1 ==> !(#[trigger] name[i] == '.' && name[i + 1] == '.')) {
            Some(name + ".mp4"@)
        } else {
            None
        }),
{
    if !name.contains('/') && !name.contains('\\') && !name.contains('\0') {
        assert forall|i: int| 0 <= i < name.len() implies !is_unsafe(#[trigger] name[i]) by {
            assert(name.contains(name[i]));
        }
    } else {
        let c = if name.contains('/') {
            '/'
        } else if name.contains('\\') {
            '\\'
        } else {
            '\0'
        };
        let i = choose|i: int| 0 <= i < name.len() && name[i] == c;
        assert(is_unsafe(name[i]));
    }
}

} // verus!
