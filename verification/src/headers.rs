//! What is read back of fields and box headers that were written.

use vstd::prelude::*;

use crate::boxes::{
    be16, be32, be64, boxes_from, bytes16, bytes32, bytes64, child_at, found, ChildSpan,
};
use crate::error::Invalid;
use crate::fmp4::box_bytes;
use crate::locate::{after_header, header_of, header_step_of, search_from, towards, BoxHeader, Step};
use crate::roundtrip::{
    law_field_round_trip, lemma_boxes_cons, lemma_find_cons, lemma_time_round_trip,
};

verus! {

broadcast use crate::fmp4::lemma_box_len;

/// Fields have their most significant byte first, when written as when read.
pub proof fn law_fields_are_big_endian(s: Seq<u8>, at: int, v16: u16, v32: u32, v64: u64)
    requires
        0 <= at,
        at + 8 <= s.len(),
    ensures
        be16(s, at) == 0x100 * s[at] + s[at + 1],
        be32(s, at) == 0x100_0000 * s[at] + 0x1_0000 * s[at + 1] + 0x100 * s[at + 2] + s[at + 3],
        be64(s, at) == 0x1_0000_0000 * be32(s, at) + be32(s, at + 4),
        bytes16(v16).len() == 2 && be16(bytes16(v16), 0) == v16,
        bytes32(v32).len() == 4 && be32(bytes32(v32), 0) == v32,
        bytes64(v64).len() == 8 && be64(bytes64(v64), 0) == v64,
{
    let b = bytes64(v64);
    assert(b.subrange(0, 8) =~= b);
    lemma_time_round_trip(b, 0, v64);
}

/// A box with a 64-bit size is read back, whatever follows it.
pub proof fn law_large_box_reads_back(kind: u32, payload: Seq<u8>, rest: Seq<u8>)
    requires
        payload.len() + 16 <= u64::MAX,
    ensures
        ({
            let body = bytes32(1) + bytes32(kind) + bytes64((payload.len() + 16) as u64) + payload
                + rest;
            let end = 16 + payload.len() as int;
            &&& child_at(body, 0) == Some(ChildSpan { kind, start: 16, end })
            &&& body.subrange(16, end) == payload
            &&& header_of(body) == Some(
                BoxHeader { size: (payload.len() + 16) as u64, kind, header: 16 },
            )
        }),
{
    let size = (payload.len() + 16) as u64;
    let body = bytes32(1) + bytes32(kind) + bytes64(size) + payload + rest;
    assert(body.subrange(0, 4) =~= bytes32(1));
    assert(body.subrange(4, 8) =~= bytes32(kind));
    assert(body.subrange(8, 16) =~= bytes64(size));
    law_field_round_trip(body, 0, 1);
    law_field_round_trip(body, 4, kind);
    lemma_time_round_trip(body, 8, size);
    assert(body.subrange(16, 16 + payload.len() as int) =~= payload);
}

/// A box of size 0 runs to the end of what it lies in.
pub proof fn law_open_box_reads_back(kind: u32, payload: Seq<u8>)
    ensures
        ({
            let body = bytes32(0) + bytes32(kind) + payload;
            &&& child_at(body, 0) == Some(
                ChildSpan { kind, start: 8, end: body.len() as int },
            )
            &&& body.subrange(8, body.len() as int) == payload
            &&& header_of(body) == Some(BoxHeader { size: 0, kind, header: 8 })
        }),
{
    let body = bytes32(0) + bytes32(kind) + payload;
    assert(body.subrange(0, 4) =~= bytes32(0));
    assert(body.subrange(4, 8) =~= bytes32(kind));
    law_field_round_trip(body, 0, 0);
    law_field_round_trip(body, 4, kind);
    assert(body.subrange(8, body.len() as int) =~= payload);
}

/// A box that declares fewer bytes than its header has, or more than there are, is no box,
/// and neither is what is left where less than a header is left.
pub proof fn law_broken_boxes_are_none(size: u32, kind: u32, rest: Seq<u8>, short: Seq<u8>)
    requires
        1 < size < 8 || size > rest.len() + 8,
        short.len() < 8,
    ensures
        child_at(bytes32(size) + bytes32(kind) + rest, 0) is None,
        child_at(short, 0) is None,
        header_of(short) is None,
{
    let body = bytes32(size) + bytes32(kind) + rest;
    assert(body.subrange(0, 4) =~= bytes32(size));
    law_field_round_trip(body, 0, size);
}

/// The search for a box goes through the boxes in order, and into the boxes that hold the
/// parts of a movie: `moov`, `trak`, `mdia`, `minf`, `stbl` and `edts`.
pub proof fn law_search_goes_into_containers(
    first: u32,
    payload: Seq<u8>,
    rest: Seq<u8>,
    kind: u32,
)
    requires
        payload.len() + 8 <= u32::MAX,
    ensures
        ({
            let body = box_bytes(first, payload) + rest;
            let holds = first == 0x6d6f_6f76 || first == 0x7472_616b || first == 0x6d64_6961
                || first == 0x6d69_6e66 || first == 0x7374_626c || first == 0x6564_7473;
            &&& first == kind ==> found(body, kind) == Some(payload)
            &&& first != kind && holds && found(payload, kind) is Some ==> found(body, kind)
                == found(payload, kind)
            &&& first != kind && !(holds && found(payload, kind) is Some) ==> found(body, kind)
                == found(rest, kind)
            &&& boxes_from(body, 0, kind) == (if first == kind {
                seq![payload]
            } else {
                Seq::empty()
            }) + boxes_from(rest, 0, kind)
        }),
{
    lemma_find_cons(first, payload, rest, kind);
    lemma_boxes_cons(first, payload, rest, kind);
    let others = boxes_from(rest, 0, kind);
    assert(Seq::<Seq<u8>>::empty() + others =~= others);
}

/// The header of a top-level box is read back.
pub proof fn law_header_reads_back(size: u32, kind: u32, rest: Seq<u8>)
    requires
        size != 1,
    ensures
        header_of(bytes32(size) + bytes32(kind) + rest) == Some(
            BoxHeader { size: size as u64, kind, header: 8 },
        ),
{
    let body = bytes32(size) + bytes32(kind) + rest;
    assert(body.subrange(0, 4) =~= bytes32(size));
    assert(body.subrange(4, 8) =~= bytes32(kind));
    law_field_round_trip(body, 0, size);
    law_field_round_trip(body, 4, kind);
}

/// What the search does at a header: it goes into `moov` unless that is larger than 64 MiB,
/// past any other box, and gives up at a box that is shorter than its header or runs past
/// the file, or where no further header fits.
pub proof fn law_search_steps(len: int, pos: int, h: BoxHeader)
    requires
        0 <= pos <= len <= u64::MAX,
        h.header == 8 || h.header == 16,
    ensures
        ({
            let size: int = if h.size == 0 {
                len - pos
            } else {
                h.size as int
            };
            let step = after_header(len, pos, h);
            &&& size < h.header || pos + size > len ==> step == Step::Stop(Invalid::NoMoov)
            &&& h.header <= size <= len - pos && h.kind == 0x6d6f_6f76 && size - h.header
                > 67_108_864 ==> step == Step::Stop(Invalid::MoovTooLarge)
            &&& h.header <= size <= len - pos && h.kind == 0x6d6f_6f76 && size - h.header
                <= 67_108_864 ==> (step matches Step::Moov { at, len: n } && at == pos + h.header
                && n == size - h.header)
            &&& h.header <= size <= len - pos && h.kind != 0x6d6f_6f76 && pos + size + 8 <= len
                ==> (step matches Step::Header { pos: next } && next == pos + size)
            &&& h.header <= size <= len - pos && h.kind != 0x6d6f_6f76 && pos + size + 8 > len
                ==> step == Step::Stop(Invalid::NoMoov)
        }),
{
}

/// Where the boxes at the top level of `file` end: the end of the file, or the first place
/// behind `pos` where no box starts.
pub open spec fn last_end(file: Seq<u8>, pos: int) -> int
    decreases file.len() - pos,
{
    match child_at(file, pos) {
        None => pos,
        Some(c) => last_end(file, c.end),
    }
}

/// Whether the header at `pos` gives 0 as a 64-bit size.
pub open spec fn is_open_large(file: Seq<u8>, pos: int) -> bool {
    pos + 16 <= file.len() && be32(file, pos) == 1 && be64(file, pos + 8) == 0
}

/// What the search ends at is the payload of the first `moov` at the top level of the file.
/// Where there is none, it ends with a defect. This leaves out files whose boxes end at a
/// header that gives 0 as a 64-bit size: to the search that box runs to the end of the file.
pub proof fn law_search_ends_at_the_first_moov(file: Seq<u8>)
    requires
        file.len() <= u64::MAX,
        !is_open_large(file, last_end(file, 0)),
    ensures
        search_from(file, 0) matches Step::Moov { at, len } ==> {
            &&& boxes_from(file, 0, 0x6d6f_6f76).len() > 0
            &&& at + len <= file.len()
            &&& boxes_from(file, 0, 0x6d6f_6f76)[0] == file.subrange(at as int, at + len)
        },
        boxes_from(file, 0, 0x6d6f_6f76).len() == 0 ==> (search_from(file, 0) == Step::Stop(
            Invalid::NoMoov,
        ) || search_from(file, 0) == Step::Stop(Invalid::TruncatedBox)),
{
    lemma_search_ends_at(file, 0);
}

#[verifier::rlimit(40)]
proof fn lemma_search_ends_at(file: Seq<u8>, pos: int)
    requires
        file.len() <= u64::MAX,
        0 <= pos,
        !is_open_large(file, last_end(file, pos)),
    ensures
        search_from(file, pos) matches Step::Moov { at, len } ==> {
            &&& boxes_from(file, pos, 0x6d6f_6f76).len() > 0
            &&& at + len <= file.len()
            &&& boxes_from(file, pos, 0x6d6f_6f76)[0] == file.subrange(at as int, at + len)
        },
        boxes_from(file, pos, 0x6d6f_6f76).len() == 0 ==> (search_from(file, pos) == Step::Stop(
            Invalid::NoMoov,
        ) || search_from(file, pos) == Step::Stop(Invalid::TruncatedBox)),
    decreases file.len() - pos,
{
    if pos + 8 <= file.len() {
        lemma_step_at(file, pos);
        if let Some(c) = child_at(file, pos) {
            if c.kind != 0x6d6f_6f76 {
                lemma_search_ends_at(file, c.end);
                assert(boxes_from(file, pos, 0x6d6f_6f76) == boxes_from(file, c.end, 0x6d6f_6f76));
            }
        }
    }
}

/// The step that the search takes at `pos` of `file`, by the box that starts there.
#[verifier::rlimit(40)]
proof fn lemma_step_at(file: Seq<u8>, pos: int)
    requires
        0 <= pos <= file.len() - 8,
        file.len() <= u64::MAX,
        !is_open_large(file, pos) || child_at(file, pos) is Some,
    ensures
        ({
            let step = header_step_of(file.len() as int, pos, file.skip(pos));
            match child_at(file, pos) {
                None => step == Step::Stop(Invalid::NoMoov) || step == Step::Stop(
                    Invalid::TruncatedBox,
                ),
                Some(c) => {
                    &&& pos < c.end <= file.len()
                    &&& pos < c.start <= c.end
                    &&& if c.kind != 0x6d6f_6f76 {
                        step == towards(file.len() as int, c.end)
                    } else {
                        step == Step::Stop(Invalid::MoovTooLarge) || step == (Step::Moov {
                            at: c.start as u64,
                            len: (c.end - c.start) as u64,
                        })
                    }
                },
            }
        }),
{
    let rest = file.skip(pos);
    assert(be32(rest, 0) == be32(file, pos));
    assert(be32(rest, 4) == be32(file, pos + 4));
    if be32(file, pos) == 1 && pos + 16 <= file.len() {
        assert(be32(rest, 8) == be32(file, pos + 8));
        assert(be32(rest, 12) == be32(file, pos + 12));
        assert(be64(rest, 8) == be64(file, pos + 8));
    }
}

} // verus!
