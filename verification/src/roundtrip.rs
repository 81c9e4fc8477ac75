//! What a parser reads back out of the segments that the writer builds.

use vstd::prelude::*;

use crate::boxes::{
    be32, be64, boxes_from, bytes16, bytes32, bytes64, child_at, find_from, found, is_container,
    ChildSpan, HDLR, MDHD, MDIA, MINF, MOOV, MVHD, STBL, STSD, TKHD, TRAK,
};
use crate::fmp4::{
    base_dts, box_bytes, box_list, data_len, dref_bytes, first_data_offset, ftyp_bytes, hdlr_bytes,
    init_bytes, lemma_append, lemma_data_len_take, low32, mdhd_bytes, mdia_bytes, media_header_box,
    minf_bytes, moof_bytes, moov_bytes, mvhd_bytes, run_bytes, segment_bytes, stbl_bytes,
    styp_bytes, tkhd_bytes, traf_bytes, traf_list, trafs_len, trak_bytes, trak_list, trex_list,
    trun_bytes, trun_entries, trun_entry, unsigned32, zeros, RunView, DINF, DREF, FLAGS_NON_SYNC,
    FLAGS_SYNC, FTYP, MDAT, MFHD, MOOF, MVEX, SMHD, STYP, TFDT, TFHD, TRAF, TREX, TRUN, VMHD,
};
use crate::mp4::{handler_kind, media_header, track_header, Mp4View, Sample, TrackKind, TrackView};
use crate::samples::signed32;

verus! {

// --- boxes ---------------------------------------------------------------

/// Reading back a 32-bit field gives the value that was written.
pub proof fn law_field_round_trip(s: Seq<u8>, at: int, v: u32)
    requires
        0 <= at,
        at + 4 <= s.len(),
        s.subrange(at, at + 4) == bytes32(v),
    ensures
        be32(s, at) == v,
{
    let b = s.subrange(at, at + 4);
    assert(b[0] == s[at] && b[1] == s[at + 1] && b[2] == s[at + 2] && b[3] == s[at + 3]);
}

broadcast use crate::fmp4::lemma_box_len;

/// A box whose size fits its 32-bit field is read back whole, whatever follows it:
/// its type, its payload, and where the next box starts.
pub proof fn law_box_round_trip(kind: u32, payload: Seq<u8>, rest: Seq<u8>)
    requires
        payload.len() + 8 <= u32::MAX,
    ensures
        ({
            let body = box_bytes(kind, payload) + rest;
            let end = 8 + payload.len() as int;
            &&& child_at(body, 0) == Some(ChildSpan { kind, start: 8, end })
            &&& body.subrange(8, end) == payload
            &&& body.subrange(end, body.len() as int) == rest
        }),
{
    reveal(box_bytes);
    let body = box_bytes(kind, payload) + rest;
    let size = low32(payload.len() + 8);
    assert(body.subrange(0, 4) =~= bytes32(size));
    law_field_round_trip(body, 0, size);
    assert(body.subrange(4, 8) =~= bytes32(kind));
    law_field_round_trip(body, 4, kind);
    assert(body.subrange(8, 8 + payload.len() as int) =~= payload);
    assert(body.subrange(8 + payload.len() as int, body.len() as int) =~= rest);
}

/// A box starts with its size and its type, and its payload follows.
pub proof fn law_box_fields(kind: u32, payload: Seq<u8>)
    requires
        payload.len() + 8 <= u32::MAX,
    ensures
        box_bytes(kind, payload).len() == payload.len() + 8,
        be32(box_bytes(kind, payload), 0) == payload.len() + 8,
        be32(box_bytes(kind, payload), 4) == kind,
        box_bytes(kind, payload).skip(8) == payload,
{
    reveal(box_bytes);
    let b = box_bytes(kind, payload);
    let size = low32(payload.len() + 8);
    assert(b.subrange(0, 4) =~= bytes32(size));
    assert(b.subrange(4, 8) =~= bytes32(kind));
    law_field_round_trip(b, 0, size);
    law_field_round_trip(b, 4, kind);
    assert(b.skip(8) =~= payload);
}

pub proof fn lemma_child_shift(head: Seq<u8>, rest: Seq<u8>, pos: int)
    requires
        0 <= pos,
    ensures
        match child_at(rest, pos) {
            None => child_at(head + rest, head.len() + pos) is None,
            Some(c) => child_at(head + rest, head.len() + pos) == Some(
                ChildSpan {
                    kind: c.kind,
                    start: head.len() + c.start,
                    end: head.len() + c.end,
                },
            ) && (head + rest).subrange(head.len() + c.start, head.len() + c.end)
                == rest.subrange(c.start, c.end),
        },
{
    let body = head + rest;
    let at = head.len() + pos;
    if pos + 8 <= rest.len() {
        assert(be32(body, at) == be32(rest, pos));
        assert(be32(body, at + 4) == be32(rest, pos + 4));
        if pos + 16 <= rest.len() {
            assert(be32(body, at + 8) == be32(rest, pos + 8));
            assert(be32(body, at + 12) == be32(rest, pos + 12));
        }
        if let Some(c) = child_at(rest, pos) {
            assert(body.subrange(head.len() + c.start, head.len() + c.end) =~= rest.subrange(
                c.start,
                c.end,
            ));
        }
    }
}

proof fn lemma_find_shift(head: Seq<u8>, rest: Seq<u8>, pos: int, kind: u32)
    requires
        0 <= pos,
    ensures
        find_from(head + rest, head.len() + pos, kind) == find_from(rest, pos, kind),
    decreases rest.len() - pos,
{
    lemma_child_shift(head, rest, pos);
    if let Some(c) = child_at(rest, pos) {
        lemma_find_shift(head, rest, c.end, kind);
    }
}

proof fn lemma_boxes_shift(head: Seq<u8>, rest: Seq<u8>, pos: int, kind: u32)
    requires
        0 <= pos,
    ensures
        boxes_from(head + rest, head.len() + pos, kind) == boxes_from(rest, pos, kind),
    decreases rest.len() - pos,
{
    lemma_child_shift(head, rest, pos);
    if let Some(c) = child_at(rest, pos) {
        lemma_boxes_shift(head, rest, c.end, kind);
    }
}

pub proof fn lemma_find_cons(first: u32, payload: Seq<u8>, rest: Seq<u8>, kind: u32)
    requires
        payload.len() + 8 <= u32::MAX,
    ensures
        find_from(box_bytes(first, payload) + rest, 0, kind) == (if first == kind {
            Some(payload)
        } else if is_container(first) && found(payload, kind) is Some {
            found(payload, kind)
        } else {
            find_from(rest, 0, kind)
        }),
{
    law_box_round_trip(first, payload, rest);
    lemma_find_shift(box_bytes(first, payload), rest, 0, kind);
}

pub proof fn lemma_find_one(first: u32, payload: Seq<u8>, kind: u32)
    requires
        payload.len() + 8 <= u32::MAX,
    ensures
        find_from(box_bytes(first, payload), 0, kind) == (if first == kind {
            Some(payload)
        } else if is_container(first) {
            found(payload, kind)
        } else {
            None
        }),
{
    lemma_find_cons(first, payload, Seq::empty(), kind);
    assert(box_bytes(first, payload) + Seq::<u8>::empty() =~= box_bytes(first, payload));
    assert(child_at(Seq::<u8>::empty(), 0) is None);
}

pub proof fn lemma_boxes_cons(first: u32, payload: Seq<u8>, rest: Seq<u8>, kind: u32)
    requires
        payload.len() + 8 <= u32::MAX,
    ensures
        boxes_from(box_bytes(first, payload) + rest, 0, kind) == (if first == kind {
            seq![payload] + boxes_from(rest, 0, kind)
        } else {
            boxes_from(rest, 0, kind)
        }),
{
    law_box_round_trip(first, payload, rest);
    lemma_boxes_shift(box_bytes(first, payload), rest, 0, kind);
}

pub proof fn lemma_two_boxes(first: u32, a: Seq<u8>, second: u32, b: Seq<u8>)
    requires
        a.len() + 8 <= u32::MAX,
        b.len() + 8 <= u32::MAX,
    ensures
        ({
            let body = box_bytes(first, a) + box_bytes(second, b);
            let middle = 8 + a.len() as int;
            &&& child_at(body, 0) == Some(ChildSpan { kind: first, start: 8, end: middle })
            &&& child_at(body, middle) == Some(
                ChildSpan { kind: second, start: middle + 8, end: body.len() as int },
            )
            &&& body.subrange(middle + 8, body.len() as int) == b
        }),
{
    let head = box_bytes(first, a);
    let tail = box_bytes(second, b);
    law_box_round_trip(first, a, tail);
    law_box_round_trip(second, b, Seq::empty());
    assert(tail + Seq::<u8>::empty() =~= tail);
    lemma_child_shift(head, tail, 0);
}

pub proof fn lemma_box_list_len(kind: u32, payloads: Seq<Seq<u8>>)
    ensures
        forall|i: int|
            0 <= i < payloads.len() ==> (#[trigger] payloads[i]).len() + 8 <= box_list(
                kind,
                payloads,
            ).len(),
    decreases payloads.len(),
{
    if payloads.len() > 0 {
        let before = payloads.drop_last();
        lemma_box_list_len(kind, before);
        assert forall|i: int| 0 <= i < payloads.len() implies (#[trigger] payloads[i]).len() + 8
            <= box_list(kind, payloads).len() by {
            if i < payloads.len() - 1 {
                assert(before[i] == payloads[i]);
            }
        }
    }
}

pub proof fn lemma_box_list(kind: u32, payloads: Seq<Seq<u8>>, rest: Seq<u8>)
    requires
        forall|i: int|
            0 <= i < payloads.len() ==> (#[trigger] payloads[i]).len() + 8 <= u32::MAX,
    ensures
        boxes_from(box_list(kind, payloads) + rest, 0, kind) == payloads + boxes_from(
            rest,
            0,
            kind,
        ),
    decreases payloads.len(),
{
    let tail = boxes_from(rest, 0, kind);
    if payloads.len() == 0 {
        assert(box_list(kind, payloads) + rest =~= rest);
        assert(payloads + tail =~= tail);
    } else {
        let before = payloads.drop_last();
        let last = payloads.last();
        lemma_append(box_list(kind, before), box_bytes(kind, last), rest);
        assert forall|i: int| 0 <= i < before.len() implies (#[trigger] before[i]).len() + 8
            <= u32::MAX by {
            assert(before[i] == payloads[i]);
        }
        lemma_box_list(kind, before, box_bytes(kind, last) + rest);
        lemma_boxes_cons(kind, last, rest, kind);
        assert(payloads + tail =~= before + (seq![last] + tail));
    }
}

pub proof fn lemma_middle_boxes(
    first: u32,
    a: Seq<u8>,
    kind: u32,
    payloads: Seq<Seq<u8>>,
    last: u32,
    b: Seq<u8>,
)
    requires
        first != kind,
        last != kind,
        (box_bytes(first, a) + box_list(kind, payloads) + box_bytes(last, b)).len() <= u32::MAX,
    ensures
        boxes_from(box_bytes(first, a) + box_list(kind, payloads) + box_bytes(last, b), 0, kind)
            == payloads,
{
    let list = box_list(kind, payloads);
    let tail = box_bytes(last, b);
    lemma_append(box_bytes(first, a), list, tail);
    lemma_boxes_cons(first, a, list + tail, kind);
    lemma_box_list_len(kind, payloads);
    lemma_box_list(kind, payloads, tail);
    lemma_boxes_cons(last, b, Seq::empty(), kind);
    assert(tail + Seq::<u8>::empty() =~= tail);
    assert(child_at(Seq::<u8>::empty(), 0) is None);
    assert(payloads + Seq::<Seq<u8>>::empty() =~= payloads);
}

// --- init segment --------------------------------------------------------

/// The init segment is an `ftyp` box followed by a `moov` box, and nothing else.
pub proof fn law_init_segment_is_ftyp_then_moov(mp4: Mp4View)
    requires
        moov_bytes(mp4).len() + 8 <= u32::MAX,
    ensures
        ({
            let init = init_bytes(mp4);
            &&& child_at(init, 0) == Some(ChildSpan { kind: FTYP, start: 8, end: 36 })
            &&& child_at(init, 36) == Some(
                ChildSpan { kind: MOOV, start: 44, end: init.len() as int },
            )
            &&& init.subrange(44, init.len() as int) == moov_bytes(mp4)
        }),
{
    assert(ftyp_bytes().len() == 28) by {
        reveal(ftyp_bytes);
    }
    reveal(init_bytes);
    lemma_two_boxes(FTYP, ftyp_bytes(), MOOV, moov_bytes(mp4));
}

/// Whether the payload of a `trak` box says of a track what a player needs to set up
/// its decoder: identifier and display size, timescale and language, kind, and the
/// sample description, byte for byte.
#[verifier::opaque]
pub open spec fn describes(trak: Seq<u8>, t: TrackView) -> bool {
    &&& found(trak, TKHD) matches Some(tkhd)
    &&& track_header(tkhd) == Some((t.id, t.width, t.height))
    &&& found(trak, MDIA) matches Some(mdia)
    &&& found(mdia, MDHD) matches Some(mdhd)
    &&& media_header(mdhd) == Some((t.timescale, t.language))
    &&& found(mdia, HDLR) matches Some(hdlr)
    &&& handler_kind(hdlr) == if t.kind == TrackKind::Audio {
        TrackKind::Audio
    } else {
        TrackKind::Video
    }
    &&& found(mdia, STBL) matches Some(stbl)
    &&& found(stbl, STSD) == Some(t.stsd)
}

pub proof fn lemma_headers(t: TrackView)
    ensures
        track_header(tkhd_bytes(t)) == Some((t.id, t.width, t.height)),
        tkhd_bytes(t).len() == 84,
        media_header(mdhd_bytes(t)) == Some((t.timescale, t.language)),
        mdhd_bytes(t).len() == 24,
        handler_kind(hdlr_bytes(t)) == (if t.kind == TrackKind::Audio {
            TrackKind::Audio
        } else {
            TrackKind::Video
        }),
        hdlr_bytes(t).len() == 37,
{
    lemma_track_header(t);
    lemma_media_header(t);
    lemma_handler(t);
}

#[verifier::rlimit(40)]
proof fn lemma_track_header(t: TrackView)
    ensures
        track_header(tkhd_bytes(t)) == Some((t.id, t.width, t.height)),
        tkhd_bytes(t).len() == 84,
{
    reveal(tkhd_bytes);
    let tkhd = tkhd_bytes(t);
    assert(tkhd.subrange(12, 16) =~= bytes32(t.id));
    assert(tkhd.subrange(76, 80) =~= bytes32(t.width));
    assert(tkhd.subrange(80, 84) =~= bytes32(t.height));
    law_field_round_trip(tkhd, 12, t.id);
    law_field_round_trip(tkhd, 76, t.width);
    law_field_round_trip(tkhd, 80, t.height);
    assert(tkhd[0] == bytes32(3)[0]);
}

proof fn lemma_media_header(t: TrackView)
    ensures
        media_header(mdhd_bytes(t)) == Some((t.timescale, t.language)),
        mdhd_bytes(t).len() == 24,
{
    reveal(mdhd_bytes);
    let mdhd = mdhd_bytes(t);
    assert(mdhd.subrange(12, 16) =~= bytes32(t.timescale));
    law_field_round_trip(mdhd, 12, t.timescale);
    assert(mdhd.subrange(20, 22) =~= bytes16(t.language));
    assert(mdhd[20] == mdhd.subrange(20, 22)[0] && mdhd[21] == mdhd.subrange(20, 22)[1]);
    assert(mdhd[0] == 0);
}

proof fn lemma_handler(t: TrackView)
    ensures
        handler_kind(hdlr_bytes(t)) == (if t.kind == TrackKind::Audio {
            TrackKind::Audio
        } else {
            TrackKind::Video
        }),
        hdlr_bytes(t).len() == 37,
{
    reveal(hdlr_bytes);
    let hdlr = hdlr_bytes(t);
    let handler = if t.kind == TrackKind::Audio {
        crate::mp4::SOUN
    } else {
        crate::mp4::VIDE
    };
    assert(hdlr.subrange(8, 12) =~= bytes32(handler));
    law_field_round_trip(hdlr, 8, handler);
}

proof fn lemma_find_stbl(t: TrackView)
    requires
        minf_bytes(t).len() + 8 <= u32::MAX,
    ensures
        found(minf_bytes(t), STBL) == Some(stbl_bytes(t)),
        found(stbl_bytes(t), STSD) == Some(t.stsd),
{
    reveal(minf_bytes);
    reveal(stbl_bytes);
    let stbl = stbl_bytes(t);
    let tables = box_bytes(crate::boxes::STTS, zeros(8)) + box_bytes(crate::boxes::STSC, zeros(8))
        + box_bytes(crate::boxes::STSZ, zeros(12)) + box_bytes(crate::boxes::STCO, zeros(8));
    assert(stbl =~= box_bytes(STSD, t.stsd) + tables);
    lemma_find_cons(STSD, t.stsd, tables, STSD);
    let dref = box_bytes(DREF, dref_bytes());
    let last = box_bytes(STBL, stbl);
    let rest = box_bytes(DINF, dref) + last;
    assert(minf_bytes(t) =~= media_header_box(t) + rest);
    lemma_find_one(STBL, stbl, STBL);
    lemma_find_cons(DINF, dref, last, STBL);
    if t.kind == TrackKind::Audio {
        lemma_find_cons(SMHD, zeros(8), rest, STBL);
    } else {
        lemma_find_cons(VMHD, bytes32(1) + zeros(8), rest, STBL);
    }
}

proof fn lemma_trak_layout(tkhd: Seq<u8>, mdhd: Seq<u8>, hdlr: Seq<u8>, minf: Seq<u8>)
    requires
        tkhd.len() == 84,
        mdhd.len() == 24,
        hdlr.len() == 37,
        minf.len() + 8 + 24 + 37 + 16 + 8 + 84 + 8 + 8 <= u32::MAX,
        found(minf, STBL) is Some,
    ensures
        ({
            let mdia = box_bytes(MDHD, mdhd) + box_bytes(HDLR, hdlr) + box_bytes(MINF, minf);
            let trak = box_bytes(TKHD, tkhd) + box_bytes(MDIA, mdia);
            &&& found(trak, TKHD) == Some(tkhd)
            &&& found(trak, MDIA) == Some(mdia)
            &&& found(mdia, MDHD) == Some(mdhd)
            &&& found(mdia, HDLR) == Some(hdlr)
            &&& found(mdia, STBL) == found(minf, STBL)
        }),
{
    let minf_box = box_bytes(MINF, minf);
    let rest = box_bytes(HDLR, hdlr) + minf_box;
    let mdia = box_bytes(MDHD, mdhd) + box_bytes(HDLR, hdlr) + minf_box;
    lemma_append(box_bytes(MDHD, mdhd), box_bytes(HDLR, hdlr), minf_box);
    lemma_find_cons(MDHD, mdhd, rest, MDHD);
    lemma_find_cons(MDHD, mdhd, rest, HDLR);
    lemma_find_cons(MDHD, mdhd, rest, STBL);
    lemma_find_cons(HDLR, hdlr, minf_box, HDLR);
    lemma_find_cons(HDLR, hdlr, minf_box, STBL);
    lemma_find_one(MINF, minf, STBL);
    let mdia_box = box_bytes(MDIA, mdia);
    lemma_find_cons(TKHD, tkhd, mdia_box, TKHD);
    lemma_find_cons(TKHD, tkhd, mdia_box, MDIA);
    lemma_find_one(MDIA, mdia, MDIA);
}

proof fn lemma_layout_describes(
    t: TrackView,
    tkhd: Seq<u8>,
    mdhd: Seq<u8>,
    hdlr: Seq<u8>,
    minf: Seq<u8>,
)
    requires
        tkhd.len() == 84,
        mdhd.len() == 24,
        hdlr.len() == 37,
        minf.len() + 8 + 24 + 37 + 16 + 8 + 84 + 8 + 8 <= u32::MAX,
        found(minf, STBL) matches Some(stbl) && found(stbl, STSD) == Some(t.stsd),
        track_header(tkhd) == Some((t.id, t.width, t.height)),
        media_header(mdhd) == Some((t.timescale, t.language)),
        handler_kind(hdlr) == (if t.kind == TrackKind::Audio {
            TrackKind::Audio
        } else {
            TrackKind::Video
        }),
    ensures
        describes(
            box_bytes(TKHD, tkhd) + box_bytes(
                MDIA,
                box_bytes(MDHD, mdhd) + box_bytes(HDLR, hdlr) + box_bytes(MINF, minf),
            ),
            t,
        ),
{
    reveal(describes);
    lemma_trak_layout(tkhd, mdhd, hdlr, minf);
}

proof fn lemma_trak_describes(t: TrackView)
    requires
        trak_bytes(t).len() + 8 <= u32::MAX,
    ensures
        describes(trak_bytes(t), t),
{
    reveal(trak_bytes);
    reveal(mdia_bytes);
    let minf = minf_bytes(t);
    lemma_headers(t);
    assert(minf.len() + 8 + 24 + 37 + 16 + 8 + 84 + 8 + 8 <= u32::MAX);
    lemma_find_stbl(t);
    lemma_layout_describes(t, tkhd_bytes(t), mdhd_bytes(t), hdlr_bytes(t), minf);
}

proof fn lemma_traks_describe(tracks: Seq<TrackView>)
    requires
        box_list(TRAK, trak_list(tracks)).len() <= u32::MAX,
    ensures
        forall|i: int|
            0 <= i < tracks.len() ==> describes(#[trigger] trak_list(tracks)[i], tracks[i]),
{
    let payloads = trak_list(tracks);
    lemma_box_list_len(TRAK, payloads);
    assert forall|i: int| 0 <= i < tracks.len() implies describes(
        #[trigger] payloads[i],
        tracks[i],
    ) by {
        assert(payloads[i] == trak_bytes(tracks[i]));
        lemma_trak_describes(tracks[i]);
    }
}

/// The `moov` box of the init segment holds one `trak` box for each track, in order,
/// and each says what a player needs to know of its track.
pub proof fn law_init_segment_describes_every_track(mp4: Mp4View)
    requires
        moov_bytes(mp4).len() + 8 <= u32::MAX,
    ensures
        ({
            let traks = boxes_from(moov_bytes(mp4), 0, TRAK);
            &&& traks.len() == mp4.tracks.len()
            &&& forall|i: int|
                0 <= i < traks.len() ==> describes(#[trigger] traks[i], mp4.tracks[i])
        }),
{
    reveal(moov_bytes);
    let mvhd = mvhd_bytes(mp4);
    let payloads = trak_list(mp4.tracks);
    let mvex = box_list(TREX, trex_list(mp4.tracks));
    lemma_middle_boxes(MVHD, mvhd, TRAK, payloads, MVEX, mvex);
    lemma_traks_describe(mp4.tracks);
}

// --- media segments ------------------------------------------------------

pub proof fn lemma_three_boxes(
    first: u32,
    a: Seq<u8>,
    second: u32,
    b: Seq<u8>,
    third: u32,
    c: Seq<u8>,
)
    requires
        a.len() + 8 <= u32::MAX,
        b.len() + 8 <= u32::MAX,
        c.len() + 8 <= u32::MAX,
    ensures
        ({
            let body = box_bytes(first, a) + box_bytes(second, b) + box_bytes(third, c);
            let p = 8 + a.len() as int;
            let q = p + 8 + b.len() as int;
            &&& body.len() == q + 8 + c.len()
            &&& child_at(body, 0) == Some(ChildSpan { kind: first, start: 8, end: p })
            &&& child_at(body, p) == Some(ChildSpan { kind: second, start: p + 8, end: q })
            &&& child_at(body, q) == Some(
                ChildSpan { kind: third, start: q + 8, end: body.len() as int },
            )
            &&& body.subrange(p + 8, q) == b
            &&& body.subrange(q + 8, body.len() as int) == c
        }),
{
    let head = box_bytes(first, a);
    let tail = box_bytes(second, b) + box_bytes(third, c);
    lemma_append(head, box_bytes(second, b), box_bytes(third, c));
    law_box_round_trip(first, a, tail);
    law_box_round_trip(second, b, box_bytes(third, c));
    lemma_two_boxes(second, b, third, c);
    lemma_child_shift(head, tail, 0);
    lemma_child_shift(head, tail, 8 + b.len() as int);
}

/// A media segment is a `styp`, a `moof` and an `mdat` box, and nothing else, and the
/// `mdat` box holds the sample data.
pub proof fn law_segment_is_styp_moof_mdat(sequence: u32, runs: Seq<RunView>, data: Seq<u8>)
    requires
        moof_bytes(sequence, runs).len() + 8 <= u32::MAX,
        data.len() + 8 <= u32::MAX,
    ensures
        ({
            let segment = segment_bytes(sequence, runs, data);
            let moof = moof_bytes(sequence, runs);
            let mdat = 36 + moof.len() as int;
            &&& child_at(segment, 0) == Some(ChildSpan { kind: STYP, start: 8, end: 28 })
            &&& child_at(segment, 28) == Some(ChildSpan { kind: MOOF, start: 36, end: mdat })
            &&& child_at(segment, mdat) == Some(
                ChildSpan { kind: MDAT, start: mdat + 8, end: segment.len() as int },
            )
            &&& segment.subrange(36, mdat) == moof
            &&& segment.subrange(mdat + 8, segment.len() as int) == data
        }),
{
    assert(styp_bytes().len() == 20) by {
        reveal(styp_bytes);
    }
    reveal(segment_bytes);
    lemma_three_boxes(STYP, styp_bytes(), MOOF, moof_bytes(sequence, runs), MDAT, data);
}

pub proof fn lemma_entries_len(samples: Seq<Sample>)
    ensures
        trun_entries(samples).len() == 16 * samples.len(),
    decreases samples.len(),
{
    if samples.len() > 0 {
        lemma_entries_len(samples.drop_last());
    }
}

#[verifier::rlimit(40)]
pub proof fn lemma_traf(run: RunView, data_offset: u32)
    ensures
        traf_bytes(run, data_offset).len() == 56 + 16 * run.samples.len(),
        56 + 16 * run.samples.len() <= u32::MAX ==> found(
            traf_bytes(run, data_offset),
            TRUN,
        ) == Some(trun_bytes(run.samples, data_offset)),
        be32(trun_bytes(run.samples, data_offset), 8) == data_offset,
{
    let trun = trun_bytes(run.samples, data_offset);
    assert(trun.len() == 12 + 16 * run.samples.len() && trun.subrange(8, 12) =~= bytes32(
        data_offset,
    )) by {
        reveal(trun_bytes);
        lemma_entries_len(run.samples);
    }
    law_field_round_trip(trun, 8, data_offset);
    let tfhd = bytes32(0x2_0000) + bytes32(run.track.id);
    let tfdt = bytes32(0x100_0000) + bytes64(base_dts(run.samples));
    assert(traf_bytes(run, data_offset) == box_bytes(TFHD, tfhd) + box_bytes(TFDT, tfdt)
        + box_bytes(TRUN, trun)) by {
        reveal(traf_bytes);
    }
    assert(tfhd.len() == 8 && tfdt.len() == 12);
    if 56 + 16 * run.samples.len() <= u32::MAX {
        lemma_find_in_three(TFHD, tfhd, TFDT, tfdt, TRUN, trun);
    }
}

/// Each of three boxes of different types is found, where they hold no others.
proof fn lemma_find_in_three(
    first: u32,
    a: Seq<u8>,
    second: u32,
    b: Seq<u8>,
    third: u32,
    c: Seq<u8>,
)
    requires
        a.len() + 8 <= u32::MAX,
        b.len() + 8 <= u32::MAX,
        c.len() + 8 <= u32::MAX,
        first != second && first != third && second != third,
        !is_container(first) && !is_container(second),
    ensures
        found(box_bytes(first, a) + box_bytes(second, b) + box_bytes(third, c), first) == Some(a),
        found(box_bytes(first, a) + box_bytes(second, b) + box_bytes(third, c), second) == Some(b),
        found(box_bytes(first, a) + box_bytes(second, b) + box_bytes(third, c), third) == Some(c),
{
    let last = box_bytes(third, c);
    let rest = box_bytes(second, b) + last;
    lemma_append(box_bytes(first, a), box_bytes(second, b), last);
    lemma_find_one(third, c, third);
    lemma_find_cons(second, b, last, third);
    lemma_find_cons(first, a, rest, third);
    lemma_find_cons(second, b, last, second);
    lemma_find_cons(first, a, rest, second);
    lemma_find_cons(first, a, rest, first);
}

proof fn lemma_entry_at(samples: Seq<Sample>, j: int)
    requires
        0 <= j < samples.len(),
    ensures
        trun_entries(samples).len() == 16 * samples.len(),
        trun_entries(samples).subrange(16 * j, 16 * j + 16) == trun_entry(samples[j]),
    decreases samples.len(),
{
    let rest = samples.drop_last();
    lemma_entries_len(samples);
    lemma_entries_len(rest);
    let all = trun_entries(samples);
    if j < rest.len() {
        lemma_entry_at(rest, j);
        assert(all.subrange(16 * j, 16 * j + 16) =~= trun_entries(rest).subrange(
            16 * j,
            16 * j + 16,
        ));
    } else {
        assert(all.subrange(16 * j, 16 * j + 16) =~= trun_entry(samples[j]));
    }
}

/// What the entry of a sample in a `trun` box says.
proof fn lemma_entry_fields(s: Sample)
    ensures
        ({
            let entry = trun_entry(s);
            &&& entry.len() == 16
            &&& be32(entry, 0) == s.duration
            &&& be32(entry, 4) == s.size
            &&& be32(entry, 8) == (if s.is_sync {
                FLAGS_SYNC
            } else {
                FLAGS_NON_SYNC
            })
            &&& signed32(be32(entry, 12)) == s.cts_offset
        }),
{
    let entry = trun_entry(s);
    let flags = if s.is_sync {
        FLAGS_SYNC
    } else {
        FLAGS_NON_SYNC
    };
    assert(entry.subrange(0, 4) =~= bytes32(s.duration));
    assert(entry.subrange(4, 8) =~= bytes32(s.size));
    assert(entry.subrange(8, 12) =~= bytes32(flags));
    assert(entry.subrange(12, 16) =~= bytes32(unsigned32(s.cts_offset)));
    law_field_round_trip(entry, 0, s.duration);
    law_field_round_trip(entry, 4, s.size);
    law_field_round_trip(entry, 8, flags);
    law_field_round_trip(entry, 12, unsigned32(s.cts_offset));
}

pub proof fn lemma_field_within(s: Seq<u8>, from: int, part: Seq<u8>, at: int)
    requires
        0 <= from,
        from + part.len() <= s.len(),
        s.subrange(from, from + part.len()) == part,
        0 <= at,
        at + 4 <= part.len(),
    ensures
        be32(s, from + at) == be32(part, at),
{
    assert(part[at] == s[from + at]);
    assert(part[at + 1] == s[from + at + 1]);
    assert(part[at + 2] == s[from + at + 2]);
    assert(part[at + 3] == s[from + at + 3]);
}

/// The `traf` box of a run names its track and the decode time of its first sample, and
/// lists every sample of it: duration, size, whether it is a sync sample, and
/// composition offset.
pub proof fn law_traf_lists_every_sample(run: RunView, data_offset: u32, j: int)
    requires
        56 + 16 * run.samples.len() <= u32::MAX,
        0 <= j < run.samples.len(),
    ensures
        ({
            let traf = traf_bytes(run, data_offset);
            let s = run.samples[j];
            &&& found(traf, TFHD) matches Some(tfhd) && be32(tfhd, 4) == run.track.id
            &&& found(traf, TFDT) matches Some(tfdt) && be64(tfdt, 4) == run.samples[0].dts
            &&& found(traf, TRUN) matches Some(trun) && {
                &&& be32(trun, 4) == run.samples.len()
                &&& be32(trun, 12 + 16 * j) == s.duration
                &&& be32(trun, 16 + 16 * j) == s.size
                &&& be32(trun, 20 + 16 * j) == (if s.is_sync {
                    FLAGS_SYNC
                } else {
                    FLAGS_NON_SYNC
                })
                &&& signed32(be32(trun, 24 + 16 * j)) == s.cts_offset
            }
        }),
{
    lemma_traf(run, data_offset);
    lemma_traf_heads(run, data_offset);
    lemma_trun_fields(run.samples, data_offset, j);
}

pub proof fn lemma_trun_fields(samples: Seq<Sample>, data_offset: u32, j: int)
    requires
        12 + 16 * samples.len() <= u32::MAX,
        0 <= j < samples.len(),
    ensures
        ({
            let trun = trun_bytes(samples, data_offset);
            let s = samples[j];
            &&& be32(trun, 4) == samples.len()
            &&& be32(trun, 12 + 16 * j) == s.duration
            &&& be32(trun, 16 + 16 * j) == s.size
            &&& be32(trun, 20 + 16 * j) == (if s.is_sync {
                FLAGS_SYNC
            } else {
                FLAGS_NON_SYNC
            })
            &&& signed32(be32(trun, 24 + 16 * j)) == s.cts_offset
        }),
{
    let trun = trun_bytes(samples, data_offset);
    let count = low32(samples.len());
    let entry = trun_entry(samples[j]);
    lemma_entry_fields(samples[j]);
    assert(trun.len() == 12 + 16 * samples.len() && trun.subrange(4, 8) =~= bytes32(count)
        && trun.subrange(12 + 16 * j, 28 + 16 * j) =~= entry) by {
        lemma_trun_parts(samples, data_offset, j);
    }
    law_field_round_trip(trun, 4, count);
    lemma_field_within(trun, 12 + 16 * j, entry, 0);
    lemma_field_within(trun, 12 + 16 * j, entry, 4);
    lemma_field_within(trun, 12 + 16 * j, entry, 8);
    lemma_field_within(trun, 12 + 16 * j, entry, 12);
}

pub proof fn lemma_trun_parts(samples: Seq<Sample>, data_offset: u32, j: int)
    requires
        0 <= j < samples.len(),
    ensures
        ({
            let trun = trun_bytes(samples, data_offset);
            &&& trun.len() == 12 + 16 * samples.len()
            &&& trun.subrange(4, 8) == bytes32(low32(samples.len()))
            &&& trun.subrange(12 + 16 * j, 28 + 16 * j) == trun_entry(samples[j])
        }),
{
    reveal(trun_bytes);
    let trun = trun_bytes(samples, data_offset);
    let entries = trun_entries(samples);
    lemma_entry_at(samples, j);
    assert(trun.subrange(12 + 16 * j, 28 + 16 * j) =~= entries.subrange(16 * j, 16 * j + 16));
}

#[verifier::rlimit(40)]
pub proof fn lemma_traf_heads(run: RunView, data_offset: u32)
    requires
        56 + 16 * run.samples.len() <= u32::MAX,
    ensures
        found(traf_bytes(run, data_offset), TFHD) matches Some(tfhd) && be32(tfhd, 4)
            == run.track.id,
        found(traf_bytes(run, data_offset), TFDT) matches Some(tfdt) && be64(tfdt, 4) == base_dts(
            run.samples,
        ),
{
    let tfhd = bytes32(0x2_0000) + bytes32(run.track.id);
    let time = base_dts(run.samples);
    let tfdt = bytes32(0x100_0000) + bytes64(time);
    let trun = trun_bytes(run.samples, data_offset);
    assert(tfhd.subrange(4, 8) =~= bytes32(run.track.id));
    law_field_round_trip(tfhd, 4, run.track.id);
    assert(tfdt.subrange(4, 12) =~= bytes64(time));
    lemma_time_round_trip(tfdt, 4, time);
    lemma_traf(run, data_offset);
    assert(trun.len() == 12 + 16 * run.samples.len()) by {
        reveal(trun_bytes);
        lemma_entries_len(run.samples);
    }
    assert(traf_bytes(run, data_offset) == box_bytes(TFHD, tfhd) + box_bytes(TFDT, tfdt)
        + box_bytes(TRUN, trun)) by {
        reveal(traf_bytes);
    }
    lemma_find_in_three(TFHD, tfhd, TFDT, tfdt, TRUN, trun);
}

pub proof fn lemma_time_round_trip(s: Seq<u8>, at: int, v: u64)
    requires
        0 <= at,
        at + 8 <= s.len(),
        s.subrange(at, at + 8) == bytes64(v),
    ensures
        be64(s, at) == v,
{
    let high = (v / 0x1_0000_0000) as u32;
    let low = (v % 0x1_0000_0000) as u32;
    assert(s.subrange(at, at + 4) =~= s.subrange(at, at + 8).subrange(0, 4));
    assert(s.subrange(at + 4, at + 8) =~= s.subrange(at, at + 8).subrange(4, 8));
    assert(bytes64(v).subrange(0, 4) =~= bytes32(high));
    assert(bytes64(v).subrange(4, 8) =~= bytes32(low));
    law_field_round_trip(s, at, high);
    law_field_round_trip(s, at + 4, low);
}

pub proof fn lemma_trafs_len(runs: Seq<RunView>, start: nat)
    ensures
        box_list(TRAF, traf_list(runs, start)).len() == trafs_len(runs),
    decreases runs.len(),
{
    if runs.len() > 0 {
        let before = runs.drop_last();
        let payloads = traf_list(runs, start);
        assert forall|i: int| 0 <= i < before.len() implies #[trigger] payloads[i] == traf_list(
            before,
            start,
        )[i] by {
            assert(before.take(i) =~= runs.take(i));
        }
        assert(payloads.drop_last() =~= traf_list(before, start));
        lemma_trafs_len(before, start);
        lemma_traf(runs.last(), low32(start + data_len(runs.take(runs.len() - 1))));
    }
}

pub proof fn lemma_moof(sequence: u32, runs: Seq<RunView>)
    ensures
        moof_bytes(sequence, runs).len() + 16 == first_data_offset(runs),
        first_data_offset(runs) <= u32::MAX ==> boxes_from(moof_bytes(sequence, runs), 0, TRAF)
            == traf_list(runs, first_data_offset(runs)),
{
    reveal(moof_bytes);
    let payloads = traf_list(runs, first_data_offset(runs));
    let mfhd = zeros(4) + bytes32(sequence);
    lemma_trafs_len(runs, first_data_offset(runs));
    if first_data_offset(runs) <= u32::MAX {
        let list = box_list(TRAF, payloads);
        lemma_boxes_cons(MFHD, mfhd, list, TRAF);
        lemma_box_list_len(TRAF, payloads);
        lemma_box_list(TRAF, payloads, Seq::empty());
        assert(list + Seq::<u8>::empty() =~= list);
        assert(child_at(Seq::<u8>::empty(), 0) is None);
        assert(payloads + Seq::<Seq<u8>>::empty() =~= payloads);
    }
}

/// The `moof` box of a media segment holds one `traf` box for each run, in order, and
/// the data offset in its `trun` box, counted from the start of the `moof` box, is
/// where the sample bytes of that run lie in the segment.
#[verifier::rlimit(40)]
pub proof fn law_data_offsets_point_at_each_run(
    sequence: u32,
    runs: Seq<RunView>,
    data: Seq<u8>,
    i: int,
)
    requires
        data.len() == data_len(runs),
        first_data_offset(runs) + data.len() <= u32::MAX,
        0 <= i < runs.len(),
    ensures
        ({
            let segment = segment_bytes(sequence, runs, data);
            let trafs = boxes_from(moof_bytes(sequence, runs), 0, TRAF);
            &&& trafs.len() == runs.len()
            &&& found(trafs[i], TRUN) matches Some(trun) && {
                let at = 28 + be32(trun, 8);
                &&& at + run_bytes(runs[i].samples) <= segment.len()
                &&& segment.subrange(at, at + run_bytes(runs[i].samples)) == data.subrange(
                    data_len(runs.take(i)) as int,
                    data_len(runs.take(i + 1)) as int,
                )
            }
        }),
{
    let segment = segment_bytes(sequence, runs, data);
    let start = first_data_offset(runs);
    lemma_moof(sequence, runs);
    law_segment_is_styp_moof_mdat(sequence, runs, data);
    lemma_data_len_take(runs, i);
    let offset = low32(start + data_len(runs.take(i)));
    assert(offset == start + data_len(runs.take(i)));
    let payloads = traf_list(runs, start);
    assert(payloads[i] == traf_bytes(runs[i], offset));
    lemma_trafs_len(runs, start);
    lemma_box_list_len(TRAF, payloads);
    lemma_traf(runs[i], offset);
    lemma_subrange(
        segment,
        28 + start as int,
        data,
        data_len(runs.take(i)) as int,
        data_len(runs.take(i + 1)) as int,
    );
}

proof fn lemma_subrange(whole: Seq<u8>, at: int, part: Seq<u8>, from: int, to: int)
    requires
        0 <= at,
        at + part.len() == whole.len(),
        whole.subrange(at, whole.len() as int) == part,
        0 <= from <= to <= part.len(),
    ensures
        whole.subrange(at + from, at + to) == part.subrange(from, to),
{
    assert(whole.subrange(at + from, at + to) =~= whole.subrange(
        at,
        whole.len() as int,
    ).subrange(from, to));
}

} // verus!
