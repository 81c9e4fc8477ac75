//! The search for the `moov` box at the top level of a file.
//!
//! `moov` may sit before or after a huge `mdat`, so the file is not read: the
//! search says which header it wants to see next, and is told what it holds.

use vstd::prelude::*;

use crate::boxes::{be32, be64, boxes_from, child_at, u32be, u64be, MOOV};
use crate::error::Invalid;

verus! {

/// A `moov` bigger than this is not something we are willing to buffer.
pub const MAX_MOOV: u64 = 0x400_0000;

/// A box header as it stands in the file.
#[derive(Clone, Copy, PartialEq, Eq, Structural, Debug)]
pub struct BoxHeader {
    /// Size of the box with its header; 0 for a box that runs to the end.
    pub size: u64,
    pub kind: u32,
    /// Length of the header itself.
    pub header: u64,
}

/// The header that `bytes` starts with: 8 bytes, or 16 where a size of 1 announces
/// a 64-bit size.
pub open spec fn header_of(bytes: Seq<u8>) -> Option<BoxHeader> {
    if bytes.len() < 8 {
        None
    } else if be32(bytes, 0) != 1 {
        Some(BoxHeader { size: be32(bytes, 0) as u64, kind: be32(bytes, 4), header: 8 })
    } else if bytes.len() < 16 {
        None
    } else {
        Some(BoxHeader { size: be64(bytes, 8), kind: be32(bytes, 4), header: 16 })
    }
}

/// Decodes a box header, or nothing where `bytes` ends before the header does.
pub fn read_header(bytes: &[u8]) -> (r: Option<BoxHeader>)
    ensures
        r == header_of(bytes@),
{
    if bytes.len() < 8 {
        return None;
    }
    match (u32be(bytes, 0), u32be(bytes, 4)) {
        (Ok(size), Ok(kind)) => if size != 1 {
            Some(BoxHeader { size: size as u64, kind, header: 8 })
        } else {
            match u64be(bytes, 8) {
                Ok(large) => Some(BoxHeader { size: large, kind, header: 16 }),
                Err(_) => None,
            }
        },
        _ => None,
    }
}

/// What the search wants next.
#[derive(Clone, Copy, PartialEq, Eq, Structural, Debug)]
pub enum Step {
    /// Read the box header at `pos`.
    Header { pos: u64 },
    /// The payload of `moov` is the `len` bytes at `at`.
    Moov { at: u64, len: u64 },
    /// The search has failed.
    Stop(Invalid),
}

/// The step towards the header at `pos` of a file of `len` bytes.
pub open spec fn towards(len: int, pos: int) -> Step {
    if pos + 8 <= len {
        Step::Header { pos: pos as u64 }
    } else {
        Step::Stop(Invalid::NoMoov)
    }
}

/// The step that follows the header `h` at `pos` of a file of `len` bytes: into
/// `moov`, past any other box. A box that is shorter than its header or runs past
/// the file ends the search.
pub open spec fn after_header(len: int, pos: int, h: BoxHeader) -> Step {
    let size: int = if h.size == 0 {
        len - pos
    } else {
        h.size as int
    };
    if size < h.header || pos + size > len {
        Step::Stop(Invalid::NoMoov)
    } else if h.kind == MOOV {
        if size - h.header > MAX_MOOV {
            Step::Stop(Invalid::MoovTooLarge)
        } else {
            Step::Moov { at: (pos + h.header) as u64, len: (size - h.header) as u64 }
        }
    } else {
        towards(len, pos + size)
    }
}

/// The first step of the search through a file of `len` bytes.
pub fn first_step(len: u64) -> (r: Step)
    ensures
        r == towards(len as int, 0),
{
    if len >= 8 {
        Step::Header { pos: 0 }
    } else {
        Step::Stop(Invalid::NoMoov)
    }
}

/// The step that follows the header `h`, which stands at `pos`.
pub fn next_step(len: u64, pos: u64, h: BoxHeader) -> (r: Step)
    requires
        pos <= len,
    ensures
        r == after_header(len as int, pos as int, h),
{
    let rest: u64 = len - pos;
    let size: u64 = if h.size == 0 {
        rest
    } else {
        h.size
    };
    if size < h.header || size > rest {
        return Step::Stop(Invalid::NoMoov);
    }
    if h.kind == MOOV {
        if size - h.header > MAX_MOOV {
            return Step::Stop(Invalid::MoovTooLarge);
        }
        return Step::Moov { at: pos + h.header, len: size - h.header };
    }
    if rest - size >= 8 {
        Step::Header { pos: pos + size }
    } else {
        Step::Stop(Invalid::NoMoov)
    }
}

/// The step that follows the header that `bytes` start with, at `pos` of a file of `len`
/// bytes. A file that ends inside a header is cut off.
pub open spec fn header_step_of(len: int, pos: int, bytes: Seq<u8>) -> Step {
    match header_of(bytes) {
        None => Step::Stop(Invalid::TruncatedBox),
        Some(h) => after_header(len, pos, h),
    }
}

/// The step that follows the header at `pos`, given the bytes that the file holds there.
/// The first 16 are enough, or fewer where the file ends before.
pub fn header_step(len: u64, pos: u64, bytes: &[u8]) -> (r: Step)
    requires
        pos <= len,
    ensures
        r == header_step_of(len as int, pos as int, bytes@),
{
    match read_header(bytes) {
        None => Step::Stop(Invalid::TruncatedBox),
        Some(h) => next_step(len, pos, h),
    }
}

/// Where the search through `file` ends once it looks at `pos`, following each step.
pub open spec fn search_from(file: Seq<u8>, pos: int) -> Step
    decreases file.len() - pos,
{
    if pos < 0 || pos + 8 > file.len() {
        Step::Stop(Invalid::NoMoov)
    } else {
        match header_step_of(file.len() as int, pos, file.skip(pos)) {
            Step::Header { pos: next } => if next > pos {
                search_from(file, next as int)
            } else {
                Step::Stop(Invalid::NoMoov)
            },
            end => end,
        }
    }
}

/// No header needs more than 16 bytes to be read.
pub proof fn law_sixteen_bytes_hold_a_header(len: int, pos: int, bytes: Seq<u8>)
    requires
        bytes.len() >= 16,
    ensures
        header_step_of(len, pos, bytes.take(16)) == header_step_of(len, pos, bytes),
{
    let head = bytes.take(16);
    assert(be32(head, 0) == be32(bytes, 0));
    assert(be32(head, 4) == be32(bytes, 4));
    assert(be32(head, 8) == be32(bytes, 8));
    assert(be32(head, 12) == be32(bytes, 12));
}

/// The search through any file ends: at the payload of `moov`, which lies in the file and
/// is small enough to buffer, or with a defect of the file.
pub proof fn law_search_ends(file: Seq<u8>, pos: int)
    requires
        file.len() <= u64::MAX,
    ensures
        match search_from(file, pos) {
            Step::Moov { at, len } => at + len <= file.len() && len <= MAX_MOOV,
            Step::Stop(_) => true,
            Step::Header { .. } => false,
        },
    decreases file.len() - pos,
{
    if !(pos < 0 || pos + 8 > file.len()) {
        if let Step::Header { pos: next } = header_step_of(
            file.len() as int,
            pos,
            file.skip(pos),
        ) {
            if next > pos {
                law_search_ends(file, next as int);
            }
        }
    }
}

/// Wherever `moov` sits among the top-level boxes of a file, the search ends at the
/// payload of the first one, or refuses it for its size.
pub proof fn law_search_finds_first_moov(file: Seq<u8>)
    requires
        file.len() <= u64::MAX,
        boxes_from(file, 0, MOOV).len() > 0,
    ensures
        ({
            let payload = boxes_from(file, 0, MOOV)[0];
            if payload.len() > MAX_MOOV {
                search_from(file, 0) == Step::Stop(Invalid::MoovTooLarge)
            } else {
                &&& search_from(file, 0) matches Step::Moov { at, len }
                &&& at + len <= file.len()
                &&& file.subrange(at as int, at + len) == payload
            }
        }),
{
    lemma_search_finds_first_moov(file, 0);
}

proof fn lemma_search_finds_first_moov(file: Seq<u8>, pos: int)
    requires
        file.len() <= u64::MAX,
        0 <= pos,
        boxes_from(file, pos, MOOV).len() > 0,
    ensures
        ({
            let payload = boxes_from(file, pos, MOOV)[0];
            if payload.len() > MAX_MOOV {
                search_from(file, pos) == Step::Stop(Invalid::MoovTooLarge)
            } else {
                &&& search_from(file, pos) matches Step::Moov { at, len }
                &&& at + len <= file.len()
                &&& file.subrange(at as int, at + len) == payload
            }
        }),
    decreases file.len() - pos,
{
    let c = child_at(file, pos)->0;
    let rest = file.skip(pos);
    assert(be32(rest, 0) == be32(file, pos));
    assert(be32(rest, 4) == be32(file, pos + 4));
    if be32(file, pos) == 1 {
        assert(be32(rest, 8) == be32(file, pos + 8));
        assert(be32(rest, 12) == be32(file, pos + 12));
        assert(be64(rest, 8) == be64(file, pos + 8));
    }
    let h = header_of(rest)->0;
    assert(h.header == c.start - pos);
    if c.kind != MOOV {
        lemma_search_finds_first_moov(file, c.end);
        assert(child_at(file, c.end) is Some);
    }
}

} // verus!
