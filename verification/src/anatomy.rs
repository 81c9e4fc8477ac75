//! Which boxes init and media segments are made of, in which order, and which of their
//! fields are left blank.

use vstd::prelude::*;

use crate::boxes::{
    be32, boxes_from, bytes16, bytes32, child_at, found, HDLR, MDHD, MDIA, MINF, MOOV, MVHD, STBL,
    STCO, STSC, STSD, STSZ, STTS, TKHD, TRAK,
};
use crate::fmp4::{
    box_bytes, box_list, dref_bytes, first_data_offset, ftyp_bytes, hdlr_bytes, init_bytes,
    lemma_append, mdhd_bytes, mdia_bytes, media_header_box, minf_bytes, moof_bytes, moov_bytes,
    mvhd_bytes, segment_bytes, stbl_bytes, styp_bytes, tkhd_bytes, traf_bytes, traf_list,
    trak_bytes, trak_list, trex_list, trun_bytes, unity_matrix, zeros, RunView, DINF, DREF, FTYP,
    MDAT, MFHD, MOOF, MVEX, SMHD, STYP, TFDT, TFHD, TRAF, TREX, TRUN, VMHD,
};
use crate::mp4::{Mp4View, TrackView};
use crate::players::{
    lemma_in_trak, lemma_init_boxes, lemma_mdhd_hdlr, lemma_minf, lemma_minf_len, lemma_moov_boxes,
    lemma_segment_boxes, lemma_stbl, lemma_tkhd,
};
use crate::roundtrip::{
    law_box_round_trip, law_field_round_trip, lemma_box_list_len, lemma_boxes_cons,
    lemma_child_shift, lemma_find_cons, lemma_moof, lemma_traf, lemma_trafs_len,
};

verus! {

broadcast use crate::fmp4::lemma_box_len;

// --- order ---------------------------------------------------------------

/// The types of the boxes of `body` from `pos` on, in order.
pub open spec fn kinds_from(body: Seq<u8>, pos: int) -> Seq<u32>
    decreases body.len() - pos,
{
    match child_at(body, pos) {
        None => Seq::empty(),
        Some(c) => seq![c.kind] + kinds_from(body, c.end),
    }
}

proof fn lemma_kinds_shift(head: Seq<u8>, rest: Seq<u8>, pos: int)
    requires
        0 <= pos,
    ensures
        kinds_from(head + rest, head.len() + pos) == kinds_from(rest, pos),
    decreases rest.len() - pos,
{
    lemma_child_shift(head, rest, pos);
    if let Some(c) = child_at(rest, pos) {
        lemma_kinds_shift(head, rest, c.end);
    }
}

proof fn lemma_kinds_cons(first: u32, payload: Seq<u8>, rest: Seq<u8>)
    requires
        payload.len() + 8 <= u32::MAX,
    ensures
        kinds_from(box_bytes(first, payload) + rest, 0) == seq![first] + kinds_from(rest, 0),
{
    law_box_round_trip(first, payload, rest);
    lemma_kinds_shift(box_bytes(first, payload), rest, 0);
}

proof fn lemma_kinds_one(first: u32, payload: Seq<u8>)
    requires
        payload.len() + 8 <= u32::MAX,
    ensures
        kinds_from(box_bytes(first, payload), 0) == seq![first],
{
    let none = Seq::<u8>::empty();
    lemma_kinds_cons(first, payload, none);
    assert(box_bytes(first, payload) + none =~= box_bytes(first, payload));
    assert(child_at(none, 0) is None);
    assert(seq![first] + Seq::<u32>::empty() =~= seq![first]);
}

proof fn lemma_kinds_list(kind: u32, payloads: Seq<Seq<u8>>, rest: Seq<u8>)
    requires
        forall|i: int|
            0 <= i < payloads.len() ==> (#[trigger] payloads[i]).len() + 8 <= u32::MAX,
    ensures
        kinds_from(box_list(kind, payloads) + rest, 0) == Seq::new(
            payloads.len(),
            |i: int| kind,
        ) + kinds_from(rest, 0),
    decreases payloads.len(),
{
    let tail = kinds_from(rest, 0);
    if payloads.len() == 0 {
        assert(box_list(kind, payloads) + rest =~= rest);
        assert(Seq::new(payloads.len(), |i: int| kind) + tail =~= tail);
    } else {
        let before = payloads.drop_last();
        let last = payloads[payloads.len() - 1];
        lemma_append(box_list(kind, before), box_bytes(kind, last), rest);
        assert forall|i: int| 0 <= i < before.len() implies (#[trigger] before[i]).len() + 8
            <= u32::MAX by {
            assert(before[i] == payloads[i]);
        }
        lemma_kinds_list(kind, before, box_bytes(kind, last) + rest);
        lemma_kinds_cons(kind, last, rest);
        assert(Seq::new(before.len(), |i: int| kind) + (seq![kind] + tail) =~= Seq::new(
            payloads.len(),
            |i: int| kind,
        ) + tail);
    }
}

proof fn lemma_kinds_three(
    first: u32,
    a: Seq<u8>,
    second: u32,
    b: Seq<u8>,
    third: u32,
    c: Seq<u8>,
)
    requires
        a.len() + 8 <= u32::MAX,
        b.len() + 8 <= u32::MAX,
        c.len() + 8 <= u32::MAX,
    ensures
        kinds_from(box_bytes(first, a) + box_bytes(second, b) + box_bytes(third, c), 0) == seq![
            first,
            second,
            third,
        ],
{
    let last = box_bytes(third, c);
    lemma_append(box_bytes(first, a), box_bytes(second, b), last);
    lemma_kinds_cons(first, a, box_bytes(second, b) + last);
    lemma_kinds_cons(second, b, last);
    lemma_kinds_one(third, c);
    assert(seq![first] + (seq![second] + seq![third]) =~= seq![first, second, third]);
}

proof fn lemma_only_box(first: u32, a: Seq<u8>, second: u32, b: Seq<u8>)
    requires
        first != second,
        a.len() + 8 <= u32::MAX,
        b.len() + 8 <= u32::MAX,
    ensures
        boxes_from(box_bytes(first, a) + box_bytes(second, b), 0, second) == seq![b],
{
    let none = Seq::<u8>::empty();
    let last = box_bytes(second, b);
    assert(last + none =~= last);
    assert(child_at(none, 0) is None);
    lemma_boxes_cons(first, a, last, second);
    lemma_boxes_cons(second, b, none, second);
    assert(seq![b] + Seq::<Seq<u8>>::empty() =~= seq![b]);
}

/// An init segment is `ftyp` and `moov`. Its `moov` holds `mvhd`, a `trak` for each track, and
/// `mvex`, which holds a `trex` for each track.
#[verifier::rlimit(40)]
pub proof fn law_init_segment_order(mp4: Mp4View)
    requires
        init_bytes(mp4).len() <= u32::MAX,
    ensures
        ({
            let moov = boxes_from(init_bytes(mp4), 0, MOOV)[0];
            let mvex = boxes_from(moov, 0, MVEX)[0];
            let count = mp4.tracks.len();
            &&& kinds_from(init_bytes(mp4), 0) == seq![0x6674_7970u32, 0x6d6f_6f76u32]
            &&& kinds_from(moov, 0) == seq![0x6d76_6864u32] + Seq::new(
                count,
                |i: int| 0x7472_616bu32,
            ) + seq![0x6d76_6578u32]
            &&& kinds_from(mvex, 0) == Seq::new(count, |i: int| 0x7472_6578u32)
        }),
{
    lemma_init_boxes(mp4);
    lemma_moov_boxes(mp4);
    let moov = moov_bytes(mp4);
    let traks = trak_list(mp4.tracks);
    let trexes = trex_list(mp4.tracks);
    let mvex = box_list(TREX, trexes);
    let none = Seq::<u8>::empty();
    assert(child_at(none, 0) is None);
    assert(kinds_from(init_bytes(mp4), 0) == seq![FTYP, MOOV]) by {
        reveal(init_bytes);
        lemma_kinds_cons(FTYP, ftyp_bytes(), box_bytes(MOOV, moov));
        lemma_kinds_one(MOOV, moov);
        assert(seq![FTYP] + seq![MOOV] =~= seq![FTYP, MOOV]);
    }
    lemma_box_list_len(TREX, trexes);
    lemma_kinds_list(TREX, trexes, none);
    assert(mvex + none =~= mvex);
    assert(Seq::new(trexes.len(), |i: int| TREX) + Seq::<u32>::empty() =~= Seq::new(
        mp4.tracks.len(),
        |i: int| 0x7472_6578u32,
    ));
    lemma_box_list_len(TRAK, traks);
    let tail = box_bytes(MVEX, mvex);
    assert(moov == box_bytes(MVHD, mvhd_bytes(mp4)) + box_list(TRAK, traks) + tail
        && mvhd_bytes(mp4).len() + 8 <= u32::MAX) by {
        reveal(moov_bytes);
    }
    lemma_append(box_bytes(MVHD, mvhd_bytes(mp4)), box_list(TRAK, traks), tail);
    lemma_kinds_cons(MVHD, mvhd_bytes(mp4), box_list(TRAK, traks) + tail);
    lemma_kinds_list(TRAK, traks, tail);
    lemma_kinds_one(MVEX, mvex);
    assert(seq![MVHD] + (Seq::new(traks.len(), |i: int| TRAK) + seq![MVEX]) =~= seq![
        0x6d76_6864u32,
    ] + Seq::new(mp4.tracks.len(), |i: int| 0x7472_616bu32) + seq![0x6d76_6578u32]);
}

/// Each `trak` of an init segment holds `tkhd` and `mdia`, that `mdhd`, `hdlr` and `minf`, that
/// `smhd` or `vmhd`, `dinf` and `stbl`, and that the five tables that a player asks for.
#[verifier::rlimit(40)]
pub proof fn law_track_order(mp4: Mp4View, i: int)
    requires
        init_bytes(mp4).len() <= u32::MAX,
        0 <= i < mp4.tracks.len(),
    ensures
        ({
            let trak = boxes_from(boxes_from(init_bytes(mp4), 0, MOOV)[0], 0, TRAK)[i];
            let mdia = boxes_from(trak, 0, MDIA)[0];
            let minf = boxes_from(mdia, 0, MINF)[0];
            let stbl = boxes_from(minf, 0, STBL)[0];
            &&& kinds_from(trak, 0) == seq![0x746b_6864u32, 0x6d64_6961u32]
            &&& kinds_from(mdia, 0) == seq![0x6d64_6864u32, 0x6864_6c72u32, 0x6d69_6e66u32]
            &&& kinds_from(minf, 0) == seq![
                if mp4.tracks[i].kind is Audio {
                    0x736d_6864u32
                } else {
                    0x766d_6864u32
                },
                0x6469_6e66u32,
                0x7374_626cu32,
            ]
            &&& kinds_from(stbl, 0) == seq![
                0x7374_7364u32,
                0x7374_7473u32,
                0x7374_7363u32,
                0x7374_737au32,
                0x7374_636fu32,
            ]
        }),
{
    lemma_init_boxes(mp4);
    lemma_moov_boxes(mp4);
    let payloads = trak_list(mp4.tracks);
    lemma_box_list_len(TRAK, payloads);
    assert(payloads[i] == trak_bytes(mp4.tracks[i]));
    lemma_trak_order(mp4.tracks[i]);
}

#[verifier::rlimit(40)]
proof fn lemma_trak_order(t: TrackView)
    requires
        trak_bytes(t).len() + 8 <= u32::MAX,
    ensures
        ({
            let trak = trak_bytes(t);
            &&& boxes_from(trak, 0, MDIA) == seq![mdia_bytes(t)]
            &&& boxes_from(mdia_bytes(t), 0, MINF) == seq![minf_bytes(t)]
            &&& boxes_from(minf_bytes(t), 0, STBL) == seq![stbl_bytes(t)]
            &&& kinds_from(trak, 0) == seq![TKHD, MDIA]
            &&& kinds_from(mdia_bytes(t), 0) == seq![MDHD, HDLR, MINF]
            &&& kinds_from(minf_bytes(t), 0) == seq![
                if t.kind is Audio {
                    SMHD
                } else {
                    VMHD
                },
                DINF,
                STBL,
            ]
            &&& kinds_from(stbl_bytes(t), 0) == seq![STSD, STTS, STSC, STSZ, STCO]
        }),
{
    lemma_minf_len(t);
    lemma_tkhd(t);
    lemma_mdhd_hdlr(t);
    let mdia = mdia_bytes(t);
    assert(trak_bytes(t) == box_bytes(TKHD, tkhd_bytes(t)) + box_bytes(MDIA, mdia) && mdia.len() + 8
        <= u32::MAX) by {
        reveal(trak_bytes);
    }
    lemma_only_box(TKHD, tkhd_bytes(t), MDIA, mdia);
    lemma_kinds_cons(TKHD, tkhd_bytes(t), box_bytes(MDIA, mdia));
    lemma_kinds_one(MDIA, mdia);
    assert(seq![TKHD] + seq![MDIA] =~= seq![TKHD, MDIA]);
    lemma_mdia_order(t);
    lemma_minf_order(t);
    lemma_stbl_order(t);
}

proof fn lemma_mdia_order(t: TrackView)
    requires
        minf_bytes(t).len() + 8 <= u32::MAX,
    ensures
        boxes_from(mdia_bytes(t), 0, MINF) == seq![minf_bytes(t)],
        kinds_from(mdia_bytes(t), 0) == seq![MDHD, HDLR, MINF],
{
    reveal(mdia_bytes);
    lemma_mdhd_hdlr(t);
    let last = box_bytes(MINF, minf_bytes(t));
    lemma_kinds_three(MDHD, mdhd_bytes(t), HDLR, hdlr_bytes(t), MINF, minf_bytes(t));
    lemma_append(box_bytes(MDHD, mdhd_bytes(t)), box_bytes(HDLR, hdlr_bytes(t)), last);
    lemma_boxes_cons(MDHD, mdhd_bytes(t), box_bytes(HDLR, hdlr_bytes(t)) + last, MINF);
    lemma_only_box(HDLR, hdlr_bytes(t), MINF, minf_bytes(t));
}

proof fn lemma_minf_order(t: TrackView)
    requires
        minf_bytes(t).len() + 8 <= u32::MAX,
        stbl_bytes(t).len() + 8 <= u32::MAX,
    ensures
        boxes_from(minf_bytes(t), 0, STBL) == seq![stbl_bytes(t)],
        kinds_from(minf_bytes(t), 0) == seq![
            if t.kind is Audio {
                SMHD
            } else {
                VMHD
            },
            DINF,
            STBL,
        ],
{
    reveal(minf_bytes);
    let dref = box_bytes(DREF, dref_bytes());
    assert(dref.len() + 8 <= u32::MAX) by {
        reveal(dref_bytes);
    }
    let (kind, head) = if t.kind is Audio {
        (SMHD, zeros(8))
    } else {
        (VMHD, bytes32(1) + zeros(8))
    };
    let last = box_bytes(STBL, stbl_bytes(t));
    assert(media_header_box(t) == box_bytes(kind, head));
    lemma_kinds_three(kind, head, DINF, dref, STBL, stbl_bytes(t));
    lemma_append(box_bytes(kind, head), box_bytes(DINF, dref), last);
    lemma_boxes_cons(kind, head, box_bytes(DINF, dref) + last, STBL);
    lemma_only_box(DINF, dref, STBL, stbl_bytes(t));
}

proof fn lemma_stbl_order(t: TrackView)
    requires
        stbl_bytes(t).len() + 8 <= u32::MAX,
    ensures
        kinds_from(stbl_bytes(t), 0) == seq![STSD, STTS, STSC, STSZ, STCO],
{
    reveal(stbl_bytes);
    let a = box_bytes(STSD, t.stsd);
    let b = box_bytes(STTS, zeros(8));
    let c = box_bytes(STSC, zeros(8));
    let d = box_bytes(STSZ, zeros(12));
    let e = box_bytes(STCO, zeros(8));
    lemma_append(a, b, c);
    lemma_append(a, b + c, d);
    lemma_append(a, b + c + d, e);
    lemma_append(b, c, d);
    lemma_append(b, c + d, e);
    lemma_append(c, d, e);
    lemma_kinds_cons(STSD, t.stsd, b + (c + (d + e)));
    lemma_kinds_cons(STTS, zeros(8), c + (d + e));
    lemma_kinds_cons(STSC, zeros(8), d + e);
    lemma_kinds_cons(STSZ, zeros(12), e);
    lemma_kinds_one(STCO, zeros(8));
    assert(seq![STSD] + (seq![STTS] + (seq![STSC] + (seq![STSZ] + seq![STCO]))) =~= seq![
        STSD,
        STTS,
        STSC,
        STSZ,
        STCO,
    ]);
}

/// A media segment is `styp`, `moof` and `mdat`. Its `moof` holds `mfhd` and a `traf` for each
/// run, and that `tfhd`, `tfdt` and `trun`.
#[verifier::rlimit(40)]
pub proof fn law_media_segment_order(
    sequence: u32,
    runs: Seq<RunView>,
    data: Seq<u8>,
    i: int,
)
    requires
        first_data_offset(runs) <= u32::MAX,
        data.len() + 8 <= u32::MAX,
        0 <= i < runs.len(),
    ensures
        ({
            let segment = segment_bytes(sequence, runs, data);
            let moof = boxes_from(segment, 0, MOOF)[0];
            &&& kinds_from(segment, 0) == seq![0x7374_7970u32, 0x6d6f_6f66u32, 0x6d64_6174u32]
            &&& kinds_from(moof, 0) == seq![0x6d66_6864u32] + Seq::new(
                runs.len(),
                |i: int| 0x7472_6166u32,
            )
            &&& kinds_from(boxes_from(moof, 0, TRAF)[i], 0) == seq![
                0x7466_6864u32,
                0x7466_6474u32,
                0x7472_756eu32,
            ]
            &&& found(moof, MFHD) matches Some(mfhd) && be32(mfhd, 0) == 0
            &&& be32(boxes_from(segment, 0, STYP)[0], 4) == 0
        }),
{
    let start = first_data_offset(runs);
    let moof = moof_bytes(sequence, runs);
    let payloads = traf_list(runs, start);
    let mfhd = zeros(4) + bytes32(sequence);
    lemma_moof(sequence, runs);
    lemma_segment_boxes(sequence, runs, data);
    assert(styp_bytes().len() == 20 && be32(styp_bytes(), 4) == 0) by {
        reveal(styp_bytes);
        assert(styp_bytes().subrange(4, 8) =~= bytes32(0));
        law_field_round_trip(styp_bytes(), 4, 0);
    }
    assert(kinds_from(segment_bytes(sequence, runs, data), 0) == seq![STYP, MOOF, MDAT]) by {
        reveal(segment_bytes);
        lemma_kinds_three(STYP, styp_bytes(), MOOF, moof, MDAT, data);
    }
    lemma_trafs_len(runs, start);
    lemma_box_list_len(TRAF, payloads);
    let list = box_list(TRAF, payloads);
    let none = Seq::<u8>::empty();
    assert(moof == box_bytes(MFHD, mfhd) + list) by {
        reveal(moof_bytes);
    }
    lemma_find_cons(MFHD, mfhd, list, MFHD);
    assert(mfhd[0] == 0 && mfhd[1] == 0 && mfhd[2] == 0 && mfhd[3] == 0);
    lemma_kinds_cons(MFHD, mfhd, list);
    assert(list + none =~= list);
    assert(child_at(none, 0) is None);
    assert forall|k: int| 0 <= k < payloads.len() implies (#[trigger] payloads[k]).len() + 8
        <= u32::MAX by {}
    lemma_kinds_list(TRAF, payloads, none);
    assert(Seq::new(payloads.len(), |i: int| TRAF) + Seq::<u32>::empty() =~= Seq::new(
        runs.len(),
        |i: int| 0x7472_6166u32,
    ));
    let offset = crate::fmp4::low32(start + crate::fmp4::data_len(runs.take(i)));
    assert(payloads[i] == traf_bytes(runs[i], offset));
    lemma_traf(runs[i], offset);
    lemma_traf_order(runs[i], offset);
}

proof fn lemma_traf_order(run: RunView, offset: u32)
    requires
        traf_bytes(run, offset).len() + 8 <= u32::MAX,
    ensures
        kinds_from(traf_bytes(run, offset), 0) == seq![TFHD, TFDT, TRUN],
{
    reveal(traf_bytes);
    lemma_kinds_three(
        TFHD,
        bytes32(0x2_0000) + bytes32(run.track.id),
        TFDT,
        bytes32(0x100_0000) + crate::boxes::bytes64(crate::fmp4::base_dts(run.samples)),
        TRUN,
        trun_bytes(run.samples, offset),
    );
}

// --- blanks --------------------------------------------------------------

/// Whether the bytes of `s` from `from` up to `to` are 0.
pub open spec fn is_blank(s: Seq<u8>, from: int, to: int) -> bool {
    forall|i: int| from <= i < to ==> #[trigger] s[i] == 0
}

/// What the headers of a track leave blank: times, durations, layers and groups, reserved
/// fields. The name of the handler says what it handles.
#[verifier::rlimit(40)]
pub proof fn law_track_headers_leave_the_rest_blank(mp4: Mp4View, i: int)
    requires
        init_bytes(mp4).len() <= u32::MAX,
        0 <= i < mp4.tracks.len(),
    ensures
        ({
            let trak = boxes_from(boxes_from(init_bytes(mp4), 0, MOOV)[0], 0, TRAK)[i];
            let audio = mp4.tracks[i].kind is Audio;
            &&& found(trak, TKHD) matches Some(b) && is_blank(b, 4, 12) && is_blank(b, 16, 36)
                && is_blank(b, 38, 40)
            &&& found(trak, MDHD) matches Some(b) && is_blank(b, 0, 12) && is_blank(b, 16, 20)
                && is_blank(b, 22, 24)
            &&& found(trak, HDLR) matches Some(b) && b.len() == 37 && is_blank(b, 0, 8)
                && is_blank(b, 12, 24) && be32(b, 24) == (if audio {
                0x536f_756eu32
            } else {
                0x5669_6465u32
            }) && be32(b, 28) == (if audio {
                0x6448_616eu32
            } else {
                0x6f48_616eu32
            }) && be32(b, 32) == 0x646c_6572 && b[36] == 0
            &&& audio ==> (found(trak, SMHD) matches Some(b) && b.len() == 8 && is_blank(b, 0, 8))
            &&& !audio ==> (found(trak, VMHD) matches Some(b) && b.len() == 12 && be32(b, 0) == 1
                && is_blank(b, 4, 12))
            &&& found(trak, STTS) matches Some(b) && is_blank(b, 0, 8)
            &&& found(trak, STSC) matches Some(b) && is_blank(b, 0, 8)
            &&& found(trak, STSZ) matches Some(b) && is_blank(b, 0, 12)
            &&& found(trak, STCO) matches Some(b) && is_blank(b, 0, 8)
        }),
{
    lemma_init_boxes(mp4);
    lemma_moov_boxes(mp4);
    let payloads = trak_list(mp4.tracks);
    let t = mp4.tracks[i];
    lemma_box_list_len(TRAK, payloads);
    assert(payloads[i] == trak_bytes(t));
    lemma_blank_headers(t);
    lemma_blank_tables(t);
    lemma_in_trak(t, TKHD);
    lemma_in_trak(t, MDHD);
    lemma_in_trak(t, HDLR);
}

proof fn lemma_blank_tables(t: TrackView)
    requires
        trak_bytes(t).len() + 8 <= u32::MAX,
    ensures
        ({
            let trak = trak_bytes(t);
            &&& t.kind is Audio ==> found(trak, SMHD) == Some(zeros(8))
            &&& !(t.kind is Audio) ==> found(trak, VMHD) == Some(bytes32(1) + zeros(8))
                && be32(bytes32(1) + zeros(8), 0) == 1
            &&& found(trak, STTS) == Some(zeros(8))
            &&& found(trak, STSC) == Some(zeros(8))
            &&& found(trak, STSZ) == Some(zeros(12))
            &&& found(trak, STCO) == Some(zeros(8))
        }),
{
    lemma_minf_len(t);
    lemma_stbl(t);
    lemma_in_trak(t, SMHD);
    lemma_in_trak(t, VMHD);
    lemma_in_trak(t, STTS);
    lemma_in_trak(t, STSC);
    lemma_in_trak(t, STSZ);
    lemma_in_trak(t, STCO);
    lemma_minf(t, SMHD);
    lemma_minf(t, VMHD);
    lemma_minf(t, STTS);
    lemma_minf(t, STSC);
    lemma_minf(t, STSZ);
    lemma_minf(t, STCO);
    let vmhd = bytes32(1) + zeros(8);
    assert(vmhd.subrange(0, 4) =~= bytes32(1));
    law_field_round_trip(vmhd, 0, 1);
}

#[verifier::rlimit(40)]
proof fn lemma_blank_headers(t: TrackView)
    ensures
        is_blank(tkhd_bytes(t), 4, 12) && is_blank(tkhd_bytes(t), 16, 36),
        is_blank(tkhd_bytes(t), 38, 40),
        is_blank(mdhd_bytes(t), 0, 12) && is_blank(mdhd_bytes(t), 16, 20),
        is_blank(mdhd_bytes(t), 22, 24),
        ({
            let b = hdlr_bytes(t);
            let audio = t.kind is Audio;
            &&& b.len() == 37
            &&& is_blank(b, 0, 8) && is_blank(b, 12, 24)
            &&& be32(b, 24) == (if audio {
                0x536f_756eu32
            } else {
                0x5669_6465u32
            })
            &&& be32(b, 28) == (if audio {
                0x6448_616eu32
            } else {
                0x6f48_616eu32
            })
            &&& be32(b, 32) == 0x646c_6572
            &&& b[36] == 0
        }),
{
    assert(is_blank(tkhd_bytes(t), 4, 12) && is_blank(tkhd_bytes(t), 16, 36) && is_blank(
        tkhd_bytes(t),
        38,
        40,
    )) by {
        reveal(tkhd_bytes);
        let b = tkhd_bytes(t);
        assert(b.subrange(4, 12) =~= zeros(8));
        assert(b.subrange(16, 36) =~= zeros(20));
        assert(b.subrange(38, 40) =~= bytes16(0));
        assert forall|i: int| 4 <= i < 12 implies #[trigger] b[i] == 0 by {
            assert(b[i] == b.subrange(4, 12)[i - 4]);
        }
        assert forall|i: int| 16 <= i < 36 implies #[trigger] b[i] == 0 by {
            assert(b[i] == b.subrange(16, 36)[i - 16]);
        }
        assert forall|i: int| 38 <= i < 40 implies #[trigger] b[i] == 0 by {
            assert(b[i] == b.subrange(38, 40)[i - 38]);
        }
    }
    assert(is_blank(mdhd_bytes(t), 0, 12) && is_blank(mdhd_bytes(t), 16, 20) && is_blank(
        mdhd_bytes(t),
        22,
        24,
    )) by {
        reveal(mdhd_bytes);
        let b = mdhd_bytes(t);
        assert(b.subrange(16, 20) =~= bytes32(0));
        assert(b.subrange(22, 24) =~= bytes16(0));
        assert forall|i: int| 16 <= i < 20 implies #[trigger] b[i] == 0 by {
            assert(b[i] == b.subrange(16, 20)[i - 16]);
        }
        assert forall|i: int| 22 <= i < 24 implies #[trigger] b[i] == 0 by {
            assert(b[i] == b.subrange(22, 24)[i - 22]);
        }
    }
    let b = hdlr_bytes(t);
    let (first, second): (u32, u32) = if t.kind is Audio {
        (0x536f_756e, 0x6448_616e)
    } else {
        (0x5669_6465, 0x6f48_616e)
    };
    assert(b.len() == 37 && is_blank(b, 0, 8) && is_blank(b, 12, 24) && b[36] == 0 && b.subrange(
        24,
        28,
    ) == bytes32(first) && b.subrange(28, 32) == bytes32(second) && b.subrange(32, 36) == bytes32(
        0x646c_6572,
    )) by {
        reveal(hdlr_bytes);
        assert(b.subrange(12, 24) =~= zeros(12));
        assert forall|i: int| 12 <= i < 24 implies #[trigger] b[i] == 0 by {
            assert(b[i] == b.subrange(12, 24)[i - 12]);
        }
        assert(b.subrange(24, 28) =~= bytes32(first));
        assert(b.subrange(28, 32) =~= bytes32(second));
        assert(b.subrange(32, 36) =~= bytes32(0x646c_6572));
    }
    law_field_round_trip(b, 24, first);
    law_field_round_trip(b, 28, second);
    law_field_round_trip(b, 32, 0x646c_6572);
}

/// What the movie header leaves blank: times and reserved fields. The minor version of the
/// brand is 0.
#[verifier::rlimit(40)]
pub proof fn law_movie_header_leaves_the_rest_blank(mp4: Mp4View)
    requires
        init_bytes(mp4).len() <= u32::MAX,
    ensures
        ({
            let moov = boxes_from(init_bytes(mp4), 0, MOOV)[0];
            let mvhd = boxes_from(moov, 0, MVHD)[0];
            &&& is_blank(mvhd, 0, 12)
            &&& is_blank(mvhd, 26, 36)
            &&& is_blank(mvhd, 72, 96)
            &&& be32(boxes_from(init_bytes(mp4), 0, FTYP)[0], 4) == 0
        }),
{
    lemma_init_boxes(mp4);
    lemma_moov_boxes(mp4);
    let b = mvhd_bytes(mp4);
    assert(is_blank(b, 0, 12) && is_blank(b, 26, 36) && is_blank(b, 72, 96)) by {
        reveal(mvhd_bytes);
        assert(unity_matrix().len() == 36);
        assert(b.subrange(26, 36) =~= zeros(10));
        assert(b.subrange(72, 96) =~= zeros(24));
        assert forall|i: int| 26 <= i < 36 implies #[trigger] b[i] == 0 by {
            assert(b[i] == b.subrange(26, 36)[i - 26]);
        }
        assert forall|i: int| 72 <= i < 96 implies #[trigger] b[i] == 0 by {
            assert(b[i] == b.subrange(72, 96)[i - 72]);
        }
    }
    assert(be32(ftyp_bytes(), 4) == 0) by {
        reveal(ftyp_bytes);
        assert(ftyp_bytes().subrange(4, 8) =~= bytes32(0));
        law_field_round_trip(ftyp_bytes(), 4, 0);
    }
}

} // verus!
