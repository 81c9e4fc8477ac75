//! Byte-level plumbing of ISO BMFF boxes: big-endian fields, box headers and
//! the search through nested boxes.
//!
//! A box type is handled as the big-endian value of its four characters.

use vstd::prelude::*;
use vstd::slice::slice_subrange;

use crate::error::Invalid;

verus! {

pub const MOOV: u32 = 0x6d6f_6f76;
pub const TRAK: u32 = 0x7472_616b;
pub const MDIA: u32 = 0x6d64_6961;
pub const MINF: u32 = 0x6d69_6e66;
pub const STBL: u32 = 0x7374_626c;
pub const EDTS: u32 = 0x6564_7473;
pub const MVHD: u32 = 0x6d76_6864;
pub const TKHD: u32 = 0x746b_6864;
pub const MDHD: u32 = 0x6d64_6864;
pub const HDLR: u32 = 0x6864_6c72;
pub const STSD: u32 = 0x7374_7364;
pub const STTS: u32 = 0x7374_7473;
pub const CTTS: u32 = 0x6374_7473;
pub const STSS: u32 = 0x7374_7373;
pub const STSC: u32 = 0x7374_7363;
pub const STSZ: u32 = 0x7374_737a;
pub const STZ2: u32 = 0x7374_7a32;
pub const STCO: u32 = 0x7374_636f;
pub const CO64: u32 = 0x636f_3634;

/// Big-endian value of the two bytes of `s` that start at `at`.
pub open spec fn be16(s: Seq<u8>, at: int) -> u16 {
    (s[at] * 0x100 + s[at + 1]) as u16
}

/// Big-endian value of the four bytes of `s` that start at `at`.
pub open spec fn be32(s: Seq<u8>, at: int) -> u32 {
    (s[at] * 0x100_0000 + s[at + 1] * 0x1_0000 + s[at + 2] * 0x100 + s[at + 3]) as u32
}

/// Big-endian value of the eight bytes of `s` that start at `at`.
pub open spec fn be64(s: Seq<u8>, at: int) -> u64 {
    (be32(s, at) * 0x1_0000_0000 + be32(s, at + 4)) as u64
}

/// The two bytes of `v`, most significant first.
pub open spec fn bytes16(v: u16) -> Seq<u8> {
    seq![(v / 0x100) as u8, (v % 0x100) as u8]
}

/// The four bytes of `v`, most significant first.
pub open spec fn bytes32(v: u32) -> Seq<u8> {
    seq![
        (v / 0x100_0000) as u8,
        (v / 0x1_0000 % 0x100) as u8,
        (v / 0x100 % 0x100) as u8,
        (v % 0x100) as u8,
    ]
}

/// The eight bytes of `v`, most significant first.
pub open spec fn bytes64(v: u64) -> Seq<u8> {
    bytes32((v / 0x1_0000_0000) as u32) + bytes32((v % 0x1_0000_0000) as u32)
}

/// Where a child box lies in the body of its parent.
pub struct ChildSpan {
    pub kind: u32,
    /// First byte of the payload.
    pub start: int,
    /// First byte after the box.
    pub end: int,
}

/// The child box whose header starts at `pos`. A size of 1 announces a 64-bit
/// size, a size of 0 a box that runs to the end of its parent. There is no child
/// where the header is cut off, or where the box is shorter than its own header
/// or runs past its parent.
pub open spec fn child_at(body: Seq<u8>, pos: int) -> Option<ChildSpan> {
    let declared = be32(body, pos);
    let header: int = if declared == 1 {
        16
    } else {
        8
    };
    let size: int = if declared == 1 {
        be64(body, pos + 8) as int
    } else if declared == 0 {
        body.len() - pos
    } else {
        declared as int
    };
    if pos < 0 || pos + 8 > body.len() || pos + header > body.len() || size < header || pos + size
        > body.len() {
        None
    } else {
        Some(ChildSpan { kind: be32(body, pos + 4), start: pos + header, end: pos + size })
    }
}

/// The payloads of the boxes of type `kind` among the children of `body` from
/// `pos` on.
pub open spec fn boxes_from(body: Seq<u8>, pos: int, kind: u32) -> Seq<Seq<u8>>
    decreases body.len() - pos,
{
    match child_at(body, pos) {
        None => Seq::empty(),
        Some(c) => {
            let rest = boxes_from(body, c.end, kind);
            if c.kind == kind {
                seq![body.subrange(c.start, c.end)] + rest
            } else {
                rest
            }
        },
    }
}

/// The boxes that the search looks into instead of skipping over.
pub open spec fn is_container(kind: u32) -> bool {
    kind == MOOV || kind == TRAK || kind == MDIA || kind == MINF || kind == STBL || kind == EDTS
}

/// The payload of the first box of type `kind`, in depth-first order, among the
/// children of `body` from `pos` on.
pub open spec fn find_from(body: Seq<u8>, pos: int, kind: u32) -> Option<Seq<u8>>
    decreases body.len(), body.len() - pos,
{
    match child_at(body, pos) {
        None => None,
        Some(c) => {
            let payload = body.subrange(c.start, c.end);
            if c.kind == kind {
                Some(payload)
            } else if is_container(c.kind) && find_from(payload, 0, kind) is Some {
                find_from(payload, 0, kind)
            } else {
                find_from(body, c.end, kind)
            }
        },
    }
}

/// The payload of the first box of type `kind` inside `body`.
pub open spec fn found(body: Seq<u8>, kind: u32) -> Option<Seq<u8>> {
    find_from(body, 0, kind)
}

/// Reads the big-endian `u16` at `at`.
pub fn u16be(buf: &[u8], at: u64) -> (r: Result<u16, Invalid>)
    ensures
        r == (if at + 2 <= buf@.len() {
            Ok::<u16, Invalid>(be16(buf@, at as int))
        } else {
            Err(Invalid::TruncatedBox)
        }),
{
    let len: usize = buf.len();
    if at > len as u64 || (len as u64) - at < 2 {
        return Err(Invalid::TruncatedBox);
    }
    let i: usize = at as usize;
    Ok((buf[i] as u16) * 0x100 + (buf[i + 1] as u16))
}

/// Reads the big-endian `u32` at `at`.
pub fn u32be(buf: &[u8], at: u64) -> (r: Result<u32, Invalid>)
    ensures
        r == (if at + 4 <= buf@.len() {
            Ok::<u32, Invalid>(be32(buf@, at as int))
        } else {
            Err(Invalid::TruncatedBox)
        }),
{
    let len: usize = buf.len();
    if at > len as u64 || (len as u64) - at < 4 {
        return Err(Invalid::TruncatedBox);
    }
    let i: usize = at as usize;
    Ok(
        (buf[i] as u32) * 0x100_0000 + (buf[i + 1] as u32) * 0x1_0000 + (buf[i + 2] as u32) * 0x100
            + (buf[i + 3] as u32),
    )
}

/// Reads the big-endian `u64` at `at`.
pub fn u64be(buf: &[u8], at: u64) -> (r: Result<u64, Invalid>)
    ensures
        r == (if at + 8 <= buf@.len() {
            Ok::<u64, Invalid>(be64(buf@, at as int))
        } else {
            Err(Invalid::TruncatedBox)
        }),
{
    let len: usize = buf.len();
    if at > len as u64 || (len as u64) - at < 8 {
        return Err(Invalid::TruncatedBox);
    }
    let high: u32 = u32be(buf, at)?;
    let low: u32 = u32be(buf, at + 4)?;
    Ok((high as u64) * 0x1_0000_0000 + (low as u64))
}

/// A box found among the children of a body.
pub struct Child<'a> {
    pub kind: u32,
    pub payload: &'a [u8],
    /// Position of the next sibling.
    pub next: usize,
}

/// Reads the child box whose header starts at `pos`.
pub fn child<'a>(body: &'a [u8], pos: usize) -> (r: Option<Child<'a>>)
    ensures
        match (r, child_at(body@, pos as int)) {
            (None, None) => true,
            (Some(c), Some(s)) => c.kind == s.kind && c.payload@ == body@.subrange(s.start, s.end)
                && c.next == s.end,
            _ => false,
        },
{
    let len: u64 = body.len() as u64;
    let at: u64 = pos as u64;
    let declared: u32 = match u32be(body, at) {
        Ok(v) => v,
        Err(_) => return None,
    };
    if len - at < 8 {
        return None;
    }
    let kind: u32 = match u32be(body, at + 4) {
        Ok(v) => v,
        Err(_) => return None,
    };
    let header: u64 = if declared == 1 {
        16
    } else {
        8
    };
    let size: u64 = if declared == 1 {
        match u64be(body, at + 8) {
            Ok(v) => v,
            Err(_) => return None,
        }
    } else if declared == 0 {
        len - at
    } else {
        declared as u64
    };
    if size < header || size > len - at {
        return None;
    }
    let start: usize = (at + header) as usize;
    let end: usize = (at + size) as usize;
    Some(Child { kind, payload: slice_subrange(body, start, end), next: end })
}

/// Collects the payloads of the direct children of `body` that carry `kind`.
pub fn boxes<'a>(body: &'a [u8], kind: u32) -> (r: Vec<&'a [u8]>)
    ensures
        r@.map_values(|p: &'a [u8]| p@) == boxes_from(body@, 0, kind),
{
    let mut out: Vec<&'a [u8]> = Vec::new();
    let mut pos: usize = 0;
    assert(out@.map_values(|p: &'a [u8]| p@) =~= Seq::empty());
    loop
        invariant
            pos <= body@.len(),
            out@.map_values(|p: &'a [u8]| p@) + boxes_from(body@, pos as int, kind) == boxes_from(
                body@,
                0,
                kind,
            ),
        ensures
            child_at(body@, pos as int) is None,
        decreases body@.len() - pos,
    {
        let c = match child(body, pos) {
            Some(c) => c,
            None => break,
        };
        let ghost before = out@.map_values(|p: &'a [u8]| p@);
        if c.kind == kind {
            out.push(c.payload);
            assert(out@.map_values(|p: &'a [u8]| p@) =~= before.push(c.payload@));
        }
        pos = c.next;
    }
    assert(boxes_from(body@, pos as int, kind) == Seq::<Seq<u8>>::empty());
    out
}

/// Depth-first search for `kind`, descending only into known container boxes.
pub fn find_box<'a>(body: &'a [u8], kind: u32) -> (r: Option<&'a [u8]>)
    ensures
        match r {
            Some(payload) => found(body@, kind) == Some(payload@),
            None => found(body@, kind) is None,
        },
    decreases body@.len(),
{
    let mut pos: usize = 0;
    loop
        invariant
            pos <= body@.len(),
            find_from(body@, pos as int, kind) == found(body@, kind),
        ensures
            child_at(body@, pos as int) is None,
        decreases body@.len() - pos,
    {
        let c = match child(body, pos) {
            Some(c) => c,
            None => break,
        };
        if c.kind == kind {
            return Some(c.payload);
        }
        if c.kind == MOOV || c.kind == TRAK || c.kind == MDIA || c.kind == MINF || c.kind == STBL
            || c.kind == EDTS {
            if let Some(hit) = find_box(c.payload, kind) {
                return Some(hit);
            }
        }
        pos = c.next;
    }
    None
}

/// The version byte of a full box, 0 where the box is empty.
pub open spec fn version_of(full_box: Seq<u8>) -> u8 {
    if full_box.len() > 0 {
        full_box[0]
    } else {
        0
    }
}

/// Returns the version byte of a full box, 0 where the box is empty.
pub fn version(full_box: &[u8]) -> (r: u8)
    ensures
        r == version_of(full_box@),
{
    if full_box.len() > 0 {
        full_box[0]
    } else {
        0
    }
}

// --- writing -------------------------------------------------------------

/// Appends `bytes`.
pub fn put(out: &mut Vec<u8>, bytes: &[u8])
    ensures
        final(out)@ == old(out)@ + bytes@,
{
    out.extend_from_slice(bytes);
    assert(out@ =~= old(out)@ + bytes@);
}

/// Appends `v`, most significant byte first.
pub fn put16(out: &mut Vec<u8>, v: u16)
    ensures
        final(out)@ == old(out)@ + bytes16(v),
{
    out.push((v / 0x100) as u8);
    out.push((v % 0x100) as u8);
    assert(out@ =~= old(out)@ + bytes16(v));
}

/// Appends `v`, most significant byte first.
pub fn put32(out: &mut Vec<u8>, v: u32)
    ensures
        final(out)@ == old(out)@ + bytes32(v),
{
    out.push((v / 0x100_0000) as u8);
    out.push((v / 0x1_0000 % 0x100) as u8);
    out.push((v / 0x100 % 0x100) as u8);
    out.push((v % 0x100) as u8);
    assert(out@ =~= old(out)@ + bytes32(v));
}

/// Appends `v`, most significant byte first.
pub fn put64(out: &mut Vec<u8>, v: u64)
    ensures
        final(out)@ == old(out)@ + bytes64(v),
{
    put32(out, (v / 0x1_0000_0000) as u32);
    put32(out, (v % 0x1_0000_0000) as u32);
    assert(out@ =~= old(out)@ + bytes64(v));
}

} // verus!
