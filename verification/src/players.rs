//! What a player finds in the segments that it is served, box by box and field by field.

use vstd::prelude::*;

use crate::boxes::{
    be16, be32, be64, boxes_from, bytes16, bytes32, child_at, found, HDLR, MDHD, MDIA, MINF, MOOV,
    MVHD, STBL, STCO, STSC, STSD, STSZ, STTS, TKHD, TRAK,
};
use crate::fmp4::{
    box_bytes, box_list, data_len, dref_bytes, first_data_offset, ftyp_bytes, hdlr_bytes,
    init_bytes, lemma_append, low32, max_id, mdhd_bytes, mdia_bytes, media_header_box, minf_bytes,
    moof_bytes, moov_bytes, mvhd_bytes, segment_bytes, stbl_bytes, styp_bytes, tkhd_bytes,
    traf_bytes, traf_list, trak_bytes, trak_list, trex_bytes, trex_list, trun_bytes, unity_matrix,
    zeros, RunView, DINF, DREF, FTYP, MDAT, MFHD, MOOF, MVEX, SMHD, STYP, TFDT, TFHD, TRAF, TREX,
    TRUN, VMHD,
};
use crate::mp4::{Mp4View, Sample, TrackKind, TrackView, SOUN, VIDE};
use crate::roundtrip::{
    law_field_round_trip, lemma_box_list, lemma_box_list_len, lemma_boxes_cons, lemma_find_cons,
    lemma_find_one, lemma_moof, lemma_traf, lemma_traf_heads, lemma_trun_fields,
};
use crate::samples::signed32;

verus! {

broadcast use crate::fmp4::lemma_box_len;

// --- media segments ------------------------------------------------------

/// Whether `traf` files `samples` under the track `id`: the identifier, the decode time of
/// the first sample, and for each sample its duration, its size, whether it is a sync
/// sample, and its composition offset.
pub open spec fn files_run(traf: Seq<u8>, id: u32, samples: Seq<Sample>) -> bool {
    &&& found(traf, TFHD) matches Some(tfhd) && tfhd.len() == 8 && be32(tfhd, 0) == 0x2_0000
        && be32(tfhd, 4) == id
    &&& found(traf, TFDT) matches Some(tfdt) && tfdt.len() == 12 && be32(tfdt, 0) == 0x100_0000
        && (samples.len() > 0 ==> be64(tfdt, 4) == samples[0].dts)
    &&& found(traf, TRUN) matches Some(trun) && {
        &&& trun.len() == 12 + 16 * samples.len()
        &&& be32(trun, 0) == 0x100_0f01
        &&& be32(trun, 4) == samples.len()
        &&& forall|j: int|
            0 <= j < samples.len() ==> {
                &&& be32(trun, 12 + 16 * j) == (#[trigger] samples[j]).duration
                &&& be32(trun, 16 + 16 * j) == samples[j].size
                &&& be32(trun, 20 + 16 * j) == (if samples[j].is_sync {
                    0x200_0000u32
                } else {
                    0x101_0000
                })
                &&& signed32(be32(trun, 24 + 16 * j)) == samples[j].cts_offset
            }
    }
}

proof fn lemma_trun_head(samples: Seq<Sample>, data_offset: u32)
    ensures
        be32(trun_bytes(samples, data_offset), 0) == 0x100_0f01,
        be32(trun_bytes(samples, data_offset), 4) == low32(samples.len()),
        trun_bytes(samples, data_offset).len() == 12 + 16 * samples.len(),
{
    reveal(trun_bytes);
    crate::roundtrip::lemma_entries_len(samples);
    let trun = trun_bytes(samples, data_offset);
    assert(trun.subrange(0, 4) =~= bytes32(0x100_0f01));
    assert(trun.subrange(4, 8) =~= bytes32(low32(samples.len())));
    law_field_round_trip(trun, 0, 0x100_0f01);
    law_field_round_trip(trun, 4, low32(samples.len()));
}

proof fn lemma_traf_fixed(run: RunView, data_offset: u32)
    requires
        56 + 16 * run.samples.len() <= u32::MAX,
    ensures
        found(traf_bytes(run, data_offset), TFHD) matches Some(tfhd) && tfhd.len() == 8 && be32(
            tfhd,
            0,
        ) == 0x2_0000,
        found(traf_bytes(run, data_offset), TFDT) matches Some(tfdt) && tfdt.len() == 12 && be32(
            tfdt,
            0,
        ) == 0x100_0000,
{
    let tfhd = bytes32(0x2_0000) + bytes32(run.track.id);
    let tfdt = bytes32(0x100_0000) + crate::boxes::bytes64(crate::fmp4::base_dts(run.samples));
    let trun = trun_bytes(run.samples, data_offset);
    let last = box_bytes(TRUN, trun);
    lemma_trun_head(run.samples, data_offset);
    assert(tfhd.subrange(0, 4) =~= bytes32(0x2_0000));
    law_field_round_trip(tfhd, 0, 0x2_0000);
    assert(tfdt.subrange(0, 4) =~= bytes32(0x100_0000));
    law_field_round_trip(tfdt, 0, 0x100_0000);
    reveal(traf_bytes);
    lemma_append(box_bytes(TFHD, tfhd), box_bytes(TFDT, tfdt), last);
    lemma_find_cons(TFHD, tfhd, box_bytes(TFDT, tfdt) + last, TFHD);
    lemma_find_cons(TFHD, tfhd, box_bytes(TFDT, tfdt) + last, TFDT);
    lemma_find_cons(TFDT, tfdt, last, TFDT);
}

#[verifier::rlimit(40)]
proof fn lemma_traf_files_run(run: RunView, data_offset: u32)
    requires
        56 + 16 * run.samples.len() <= u32::MAX,
    ensures
        files_run(traf_bytes(run, data_offset), run.track.id, run.samples),
{
    let samples = run.samples;
    lemma_traf(run, data_offset);
    lemma_traf_heads(run, data_offset);
    lemma_traf_fixed(run, data_offset);
    lemma_trun_head(samples, data_offset);
    let trun = trun_bytes(samples, data_offset);
    assert forall|j: int| 0 <= j < samples.len() implies {
        &&& be32(trun, 12 + 16 * j) == (#[trigger] samples[j]).duration
        &&& be32(trun, 16 + 16 * j) == samples[j].size
        &&& be32(trun, 20 + 16 * j) == (if samples[j].is_sync {
            0x200_0000u32
        } else {
            0x101_0000
        })
        &&& signed32(be32(trun, 24 + 16 * j)) == samples[j].cts_offset
    } by {
        lemma_trun_fields(samples, data_offset, j);
    }
}

/// The boxes at the top level of a media segment.
pub proof fn lemma_segment_boxes(sequence: u32, runs: Seq<RunView>, data: Seq<u8>)
    requires
        moof_bytes(sequence, runs).len() + 8 <= u32::MAX,
        data.len() + 8 <= u32::MAX,
    ensures
        boxes_from(segment_bytes(sequence, runs, data), 0, STYP) == seq![styp_bytes()],
        boxes_from(segment_bytes(sequence, runs, data), 0, MOOF) == seq![
            moof_bytes(sequence, runs),
        ],
        boxes_from(segment_bytes(sequence, runs, data), 0, MDAT) == seq![data],
{
    assert(styp_bytes().len() == 20) by {
        reveal(styp_bytes);
    }
    reveal(segment_bytes);
    lemma_boxes_of_three(STYP, styp_bytes(), MOOF, moof_bytes(sequence, runs), MDAT, data);
}

proof fn lemma_boxes_of_three(
    first: u32,
    a: Seq<u8>,
    second: u32,
    b: Seq<u8>,
    third: u32,
    c: Seq<u8>,
)
    requires
        a.len() + 8 <= u32::MAX,
        b.len() + 8 <= u32::MAX,
        c.len() + 8 <= u32::MAX,
        first != second,
        second != third,
        first != third,
    ensures
        ({
            let body = box_bytes(first, a) + box_bytes(second, b) + box_bytes(third, c);
            &&& boxes_from(body, 0, first) == seq![a]
            &&& boxes_from(body, 0, second) == seq![b]
            &&& boxes_from(body, 0, third) == seq![c]
        }),
{
    let last = box_bytes(third, c);
    let none = Seq::<u8>::empty();
    lemma_append(box_bytes(first, a), box_bytes(second, b), last);
    assert(last + none =~= last);
    assert(child_at(none, 0) is None);
    lemma_boxes_cons(first, a, box_bytes(second, b) + last, first);
    lemma_boxes_cons(second, b, last, first);
    lemma_boxes_cons(third, c, none, first);
    lemma_boxes_cons(first, a, box_bytes(second, b) + last, second);
    lemma_boxes_cons(second, b, last, second);
    lemma_boxes_cons(third, c, none, second);
    lemma_boxes_cons(first, a, box_bytes(second, b) + last, third);
    lemma_boxes_cons(second, b, last, third);
    lemma_boxes_cons(third, c, none, third);
    let empty = Seq::<Seq<u8>>::empty();
    assert(seq![a] + empty =~= seq![a]);
    assert(seq![b] + empty =~= seq![b]);
    assert(seq![c] + empty =~= seq![c]);
}

/// A media segment holds one `styp`, with the brand `msdh` and the compatible brands `msdh`,
/// `msix` and `cmfs`.
pub proof fn law_segment_names_its_brands(sequence: u32, runs: Seq<RunView>, data: Seq<u8>)
    requires
        first_data_offset(runs) <= u32::MAX,
        data.len() + 8 <= u32::MAX,
    ensures
        ({
            let styps = boxes_from(segment_bytes(sequence, runs, data), 0, STYP);
            &&& styps.len() == 1
            &&& styps[0].len() == 20
            &&& be32(styps[0], 0) == 0x6d73_6468 && be32(styps[0], 8) == 0x6d73_6468
            &&& be32(styps[0], 12) == 0x6d73_6978 && be32(styps[0], 16) == 0x636d_6673
        }),
{
    lemma_moof(sequence, runs);
    lemma_segment_boxes(sequence, runs, data);
    reveal(styp_bytes);
    let styp = styp_bytes();
    assert(styp.subrange(0, 4) =~= bytes32(crate::fmp4::MSDH));
    assert(styp.subrange(8, 12) =~= bytes32(crate::fmp4::MSDH));
    assert(styp.subrange(12, 16) =~= bytes32(crate::fmp4::MSIX));
    assert(styp.subrange(16, 20) =~= bytes32(crate::fmp4::CMFS));
    law_field_round_trip(styp, 0, crate::fmp4::MSDH);
    law_field_round_trip(styp, 8, crate::fmp4::MSDH);
    law_field_round_trip(styp, 12, crate::fmp4::MSIX);
    law_field_round_trip(styp, 16, crate::fmp4::CMFS);
}

/// A media segment holds one `moof`, which carries the sequence number and files each run,
/// in order, under the identifier of its own track, and one `mdat`, which holds the
/// sample bytes.
#[verifier::rlimit(40)]
pub proof fn law_segment_files_every_run(
    sequence: u32,
    runs: Seq<RunView>,
    data: Seq<u8>,
    i: int,
)
    requires
        first_data_offset(runs) <= u32::MAX,
        data.len() + 8 <= u32::MAX,
        0 <= i < runs.len(),
    ensures
        ({
            let segment = segment_bytes(sequence, runs, data);
            let moofs = boxes_from(segment, 0, MOOF);
            let trafs = boxes_from(moofs[0], 0, TRAF);
            &&& moofs.len() == 1
            &&& found(moofs[0], MFHD) matches Some(mfhd) && mfhd.len() == 8 && be32(mfhd, 4)
                == sequence
            &&& boxes_from(segment, 0, MDAT) == seq![data]
            &&& trafs.len() == runs.len()
            &&& files_run(trafs[i], runs[i].track.id, runs[i].samples)
        }),
{
    let start = first_data_offset(runs);
    let moof = moof_bytes(sequence, runs);
    lemma_moof(sequence, runs);
    lemma_segment_boxes(sequence, runs, data);
    let payloads = traf_list(runs, start);
    let offset = low32(start + data_len(runs.take(i)));
    assert(payloads[i] == traf_bytes(runs[i], offset));
    assert(56 + 16 * runs[i].samples.len() <= u32::MAX) by {
        lemma_traf(runs[i], offset);
        crate::roundtrip::lemma_trafs_len(runs, start);
        lemma_box_list_len(TRAF, payloads);
    }
    lemma_traf_files_run(runs[i], offset);
    let mfhd = zeros(4) + bytes32(sequence);
    assert(mfhd.subrange(4, 8) =~= bytes32(sequence));
    law_field_round_trip(mfhd, 4, sequence);
    assert(found(moof, MFHD) == Some(mfhd)) by {
        reveal(moof_bytes);
        lemma_find_cons(MFHD, mfhd, box_list(TRAF, payloads), MFHD);
    }
}

// --- init segment --------------------------------------------------------

/// Whether `trak` sets up a decoder for track `t`, with the timing left to the media
/// segments: the track is enabled, only sound has a volume, and the sample tables are
/// there but empty.
#[verifier::opaque]
pub open spec fn sets_up(trak: Seq<u8>, t: TrackView) -> bool {
    &&& found(trak, TKHD) matches Some(tkhd) && {
        &&& tkhd.len() == 84
        &&& be32(tkhd, 0) == 3
        &&& be32(tkhd, 12) == t.id
        &&& be16(tkhd, 36) == (if t.kind == TrackKind::Audio {
            0x100u16
        } else {
            0
        })
        &&& is_unity(tkhd, 40)
        &&& be32(tkhd, 76) == t.width
        &&& be32(tkhd, 80) == t.height
    }
    &&& found(trak, MDHD) matches Some(mdhd) && {
        &&& mdhd.len() == 24
        &&& be32(mdhd, 0) == 0
        &&& be32(mdhd, 12) == t.timescale
        &&& be16(mdhd, 20) == t.language
    }
    &&& found(trak, HDLR) matches Some(hdlr) && be32(hdlr, 8) == (if t.kind == TrackKind::Audio {
        0x736f_756eu32
    } else {
        0x7669_6465
    })
    &&& found(trak, STSD) == Some(t.stsd)
    &&& found(trak, STTS) matches Some(b) && b.len() == 8 && be32(b, 4) == 0
    &&& found(trak, STSC) matches Some(b) && b.len() == 8 && be32(b, 4) == 0
    &&& found(trak, STCO) matches Some(b) && b.len() == 8 && be32(b, 4) == 0
    &&& found(trak, STSZ) matches Some(b) && b.len() == 12 && be32(b, 4) == 0 && be32(b, 8) == 0
    &&& found(trak, DINF) matches Some(dinf) && is_self_contained(dinf)
    &&& if t.kind == TrackKind::Audio {
        found(trak, SMHD) is Some && found(trak, VMHD) is None
    } else {
        found(trak, VMHD) is Some && found(trak, SMHD) is None
    }
}

/// Whether `dinf` holds a `dref` with one entry, a `url ` with flags 1: the data lies in the
/// same file.
#[verifier::opaque]
pub open spec fn is_self_contained(dinf: Seq<u8>) -> bool {
    let drefs = boxes_from(dinf, 0, DREF);
    let urls = boxes_from(drefs[0].skip(8), 0, 0x7572_6c20);
    &&& drefs.len() == 1
    &&& be32(drefs[0], 4) == 1
    &&& urls.len() == 1
    &&& urls[0].len() == 4
    &&& be32(urls[0], 0) == 1
}

proof fn lemma_self_contained()
    ensures
        is_self_contained(box_bytes(DREF, dref_bytes())),
        dref_bytes().len() == 20,
{
    reveal(is_self_contained);
    reveal(dref_bytes);
    let dref = dref_bytes();
    let url = box_bytes(crate::fmp4::URL, bytes32(1));
    let none = Seq::<u8>::empty();
    let empty = Seq::<Seq<u8>>::empty();
    assert(child_at(none, 0) is None);
    assert(dref.len() == 20);
    assert(box_bytes(DREF, dref) + none =~= box_bytes(DREF, dref));
    lemma_boxes_cons(DREF, dref, none, DREF);
    assert(seq![dref] + empty =~= seq![dref]);
    assert(dref.subrange(4, 8) =~= bytes32(1));
    law_field_round_trip(dref, 4, 1);
    assert(dref.skip(8) =~= url + none);
    lemma_boxes_cons(crate::fmp4::URL, bytes32(1), none, crate::fmp4::URL);
    assert(seq![bytes32(1)] + empty =~= seq![bytes32(1)]);
    assert(bytes32(1).subrange(0, 4) =~= bytes32(1));
    law_field_round_trip(bytes32(1), 0, 1);
}

/// Whether the identity transformation stands at `at`, in 16.16 and 2.30 fixed point.
#[verifier::opaque]
pub open spec fn is_unity(s: Seq<u8>, at: int) -> bool {
    &&& be32(s, at) == 0x1_0000 && be32(s, at + 4) == 0 && be32(s, at + 8) == 0
    &&& be32(s, at + 12) == 0 && be32(s, at + 16) == 0x1_0000 && be32(s, at + 20) == 0
    &&& be32(s, at + 24) == 0 && be32(s, at + 28) == 0 && be32(s, at + 32) == 0x4000_0000
}

proof fn lemma_unity(s: Seq<u8>, at: int)
    requires
        0 <= at,
        at + 36 <= s.len(),
        s.subrange(at, at + 36) == unity_matrix(),
    ensures
        is_unity(s, at),
{
    reveal(is_unity);
    lemma_matrix_field(s, at, 0, 0x1_0000);
    lemma_matrix_field(s, at, 4, 0);
    lemma_matrix_field(s, at, 8, 0);
    lemma_matrix_field(s, at, 12, 0);
    lemma_matrix_field(s, at, 16, 0x1_0000);
    lemma_matrix_field(s, at, 20, 0);
    lemma_matrix_field(s, at, 24, 0);
    lemma_matrix_field(s, at, 28, 0);
    lemma_matrix_field(s, at, 32, 0x4000_0000);
}

proof fn lemma_matrix_field(s: Seq<u8>, at: int, k: int, v: u32)
    requires
        0 <= at,
        at + 36 <= s.len(),
        s.subrange(at, at + 36) == unity_matrix(),
        0 <= k <= 32,
        unity_matrix().subrange(k, k + 4) =~= bytes32(v),
    ensures
        be32(s, at + k) == v,
{
    assert(s.subrange(at + k, at + k + 4) =~= s.subrange(at, at + 36).subrange(k, k + 4));
    law_field_round_trip(s, at + k, v);
}

/// The fields of a track header.
#[verifier::rlimit(40)]
pub proof fn lemma_tkhd(t: TrackView)
    ensures
        ({
            let tkhd = tkhd_bytes(t);
            &&& tkhd.len() == 84
            &&& be32(tkhd, 0) == 3
            &&& be32(tkhd, 12) == t.id
            &&& be16(tkhd, 36) == (if t.kind == TrackKind::Audio {
                0x100u16
            } else {
                0
            })
            &&& is_unity(tkhd, 40)
            &&& be32(tkhd, 76) == t.width
            &&& be32(tkhd, 80) == t.height
        }),
{
    reveal(tkhd_bytes);
    let tkhd = tkhd_bytes(t);
    assert(tkhd.len() == 84);
    assert(tkhd.subrange(0, 4) =~= bytes32(3));
    assert(tkhd.subrange(12, 16) =~= bytes32(t.id));
    assert(tkhd.subrange(40, 76) =~= unity_matrix());
    assert(tkhd.subrange(76, 80) =~= bytes32(t.width));
    assert(tkhd.subrange(80, 84) =~= bytes32(t.height));
    law_field_round_trip(tkhd, 0, 3);
    law_field_round_trip(tkhd, 12, t.id);
    law_field_round_trip(tkhd, 76, t.width);
    law_field_round_trip(tkhd, 80, t.height);
    lemma_unity(tkhd, 40);
    let volume: u16 = if t.kind == TrackKind::Audio {
        0x100
    } else {
        0
    };
    assert(tkhd.subrange(36, 38) =~= bytes16(volume));
    assert(tkhd[36] == tkhd.subrange(36, 38)[0] && tkhd[37] == tkhd.subrange(36, 38)[1]);
}

/// The fields of a media header and of a handler.
pub proof fn lemma_mdhd_hdlr(t: TrackView)
    ensures
        ({
            let mdhd = mdhd_bytes(t);
            let hdlr = hdlr_bytes(t);
            &&& mdhd.len() == 24
            &&& be32(mdhd, 0) == 0
            &&& be32(mdhd, 12) == t.timescale
            &&& be16(mdhd, 20) == t.language
            &&& hdlr.len() == 37
            &&& be32(hdlr, 8) == (if t.kind == TrackKind::Audio {
                0x736f_756eu32
            } else {
                0x7669_6465
            })
        }),
{
    let mdhd = mdhd_bytes(t);
    assert(mdhd.len() == 24 && be32(mdhd, 0) == 0 && be32(mdhd, 12) == t.timescale && be16(mdhd, 20)
        == t.language) by {
        reveal(mdhd_bytes);
        assert(mdhd[0] == 0 && mdhd[1] == 0 && mdhd[2] == 0 && mdhd[3] == 0);
        assert(mdhd.subrange(12, 16) =~= bytes32(t.timescale));
        law_field_round_trip(mdhd, 12, t.timescale);
        assert(mdhd.subrange(20, 22) =~= bytes16(t.language));
        assert(mdhd[20] == mdhd.subrange(20, 22)[0] && mdhd[21] == mdhd.subrange(20, 22)[1]);
    }
    let hdlr = hdlr_bytes(t);
    let handler = if t.kind == TrackKind::Audio {
        SOUN
    } else {
        VIDE
    };
    assert(hdlr.len() == 37 && hdlr.subrange(8, 12) == bytes32(handler)) by {
        reveal(hdlr_bytes);
        assert(hdlr.subrange(8, 12) =~= bytes32(handler));
    }
    law_field_round_trip(hdlr, 8, handler);
}

/// What is found in a list of boxes is found in the first of them, or in the rest.
proof fn lemma_past(first: u32, payload: Seq<u8>, rest: Seq<u8>, kind: u32)
    requires
        payload.len() + 8 <= u32::MAX,
        first != kind,
        !crate::boxes::is_container(first),
    ensures
        found(box_bytes(first, payload) + rest, kind) == found(rest, kind),
{
    lemma_find_cons(first, payload, rest, kind);
}

/// The sample tables of an init segment are empty.
pub proof fn lemma_stbl(t: TrackView)
    requires
        stbl_bytes(t).len() + 8 <= u32::MAX,
    ensures
        ({
            let stbl = stbl_bytes(t);
            &&& found(stbl, STSD) == Some(t.stsd)
            &&& found(stbl, STTS) == Some(zeros(8))
            &&& found(stbl, STSC) == Some(zeros(8))
            &&& found(stbl, STSZ) == Some(zeros(12))
            &&& found(stbl, STCO) == Some(zeros(8))
            &&& found(stbl, SMHD) is None
            &&& found(stbl, VMHD) is None
        }),
{
    reveal(stbl_bytes);
    let e = box_bytes(STCO, zeros(8));
    let d = box_bytes(STSZ, zeros(12));
    let c = box_bytes(STSC, zeros(8));
    let b = box_bytes(STTS, zeros(8));
    let a = box_bytes(STSD, t.stsd);
    let tail = b + (c + (d + e));
    lemma_append(a + b + c, d, e);
    lemma_append(a + b, c, d + e);
    lemma_append(a, b, c + (d + e));
    assert(stbl_bytes(t) == a + tail);
    lemma_find_cons(STSD, t.stsd, tail, STSD);
    lemma_past(STSD, t.stsd, tail, STTS);
    lemma_past(STSD, t.stsd, tail, STSC);
    lemma_past(STSD, t.stsd, tail, STSZ);
    lemma_past(STSD, t.stsd, tail, STCO);
    lemma_past(STSD, t.stsd, tail, SMHD);
    lemma_past(STSD, t.stsd, tail, VMHD);
    lemma_find_cons(STTS, zeros(8), c + (d + e), STTS);
    lemma_past(STTS, zeros(8), c + (d + e), STSC);
    lemma_past(STTS, zeros(8), c + (d + e), STSZ);
    lemma_past(STTS, zeros(8), c + (d + e), STCO);
    lemma_past(STTS, zeros(8), c + (d + e), SMHD);
    lemma_past(STTS, zeros(8), c + (d + e), VMHD);
    lemma_find_cons(STSC, zeros(8), d + e, STSC);
    lemma_past(STSC, zeros(8), d + e, STSZ);
    lemma_past(STSC, zeros(8), d + e, STCO);
    lemma_past(STSC, zeros(8), d + e, SMHD);
    lemma_past(STSC, zeros(8), d + e, VMHD);
    lemma_find_cons(STSZ, zeros(12), e, STSZ);
    lemma_past(STSZ, zeros(12), e, STCO);
    lemma_past(STSZ, zeros(12), e, SMHD);
    lemma_past(STSZ, zeros(12), e, VMHD);
    lemma_find_one(STCO, zeros(8), STCO);
    lemma_find_one(STCO, zeros(8), SMHD);
    lemma_find_one(STCO, zeros(8), VMHD);
}

/// Whether `kind` is a box of a sample table.
pub open spec fn in_stbl(kind: u32) -> bool {
    kind == STSD || kind == STTS || kind == STSC || kind == STSZ || kind == STCO
}

/// What is found in the `minf` box of an init segment.
pub proof fn lemma_minf(t: TrackView, kind: u32)
    requires
        minf_bytes(t).len() + 8 <= u32::MAX,
        in_stbl(kind) || kind == SMHD || kind == VMHD || kind == DINF,
    ensures
        found(minf_bytes(t), kind) == (if in_stbl(kind) {
            found(stbl_bytes(t), kind)
        } else if kind == SMHD && t.kind == TrackKind::Audio {
            Some(zeros(8))
        } else if kind == VMHD && t.kind != TrackKind::Audio {
            Some(bytes32(1) + zeros(8))
        } else if kind == DINF {
            Some(box_bytes(DREF, dref_bytes()))
        } else {
            None
        }),
{
    reveal(minf_bytes);
    let dref = box_bytes(DREF, dref_bytes());
    let last = box_bytes(STBL, stbl_bytes(t));
    let rest = box_bytes(DINF, dref) + last;
    lemma_append(media_header_box(t), box_bytes(DINF, dref), last);
    lemma_stbl(t);
    lemma_find_one(STBL, stbl_bytes(t), kind);
    lemma_self_contained();
    lemma_find_cons(DINF, dref, last, kind);
    if t.kind == TrackKind::Audio {
        lemma_find_cons(SMHD, zeros(8), rest, kind);
    } else {
        lemma_find_cons(VMHD, bytes32(1) + zeros(8), rest, kind);
    }
}

/// What is found in the `trak` box of an init segment.
pub proof fn lemma_in_trak(t: TrackView, kind: u32)
    requires
        trak_bytes(t).len() + 8 <= u32::MAX,
        in_stbl(kind) || kind == SMHD || kind == VMHD || kind == DINF || kind == MDHD || kind
            == HDLR || kind == TKHD,
    ensures
        found(trak_bytes(t), kind) == (if kind == TKHD {
            Some(tkhd_bytes(t))
        } else if kind == MDHD {
            Some(mdhd_bytes(t))
        } else if kind == HDLR {
            Some(hdlr_bytes(t))
        } else {
            found(minf_bytes(t), kind)
        }),
{
    reveal(trak_bytes);
    reveal(mdia_bytes);
    lemma_tkhd(t);
    lemma_mdhd_hdlr(t);
    let mdhd = box_bytes(MDHD, mdhd_bytes(t));
    let hdlr = box_bytes(HDLR, hdlr_bytes(t));
    let minf = box_bytes(MINF, minf_bytes(t));
    lemma_append(mdhd, hdlr, minf);
    lemma_find_cons(TKHD, tkhd_bytes(t), box_bytes(MDIA, mdia_bytes(t)), kind);
    lemma_find_one(MDIA, mdia_bytes(t), kind);
    lemma_find_cons(MDHD, mdhd_bytes(t), hdlr + minf, kind);
    lemma_find_cons(HDLR, hdlr_bytes(t), minf, kind);
    lemma_find_one(MINF, minf_bytes(t), kind);
}

/// The parts of a track fit where the track fits.
pub proof fn lemma_minf_len(t: TrackView)
    requires
        trak_bytes(t).len() + 8 <= u32::MAX,
    ensures
        minf_bytes(t).len() + 8 <= u32::MAX,
        stbl_bytes(t).len() + 8 <= u32::MAX,
{
    reveal(trak_bytes);
    reveal(mdia_bytes);
    reveal(minf_bytes);
}

#[verifier::rlimit(40)]
proof fn lemma_sets_up(t: TrackView)
    requires
        trak_bytes(t).len() + 8 <= u32::MAX,
    ensures
        sets_up(trak_bytes(t), t),
{
    reveal(sets_up);
    lemma_tkhd(t);
    lemma_mdhd_hdlr(t);
    lemma_minf_len(t);
    lemma_stbl(t);
    lemma_in_trak(t, TKHD);
    lemma_in_trak(t, MDHD);
    lemma_in_trak(t, HDLR);
    lemma_in_trak(t, STSD);
    lemma_in_trak(t, STTS);
    lemma_in_trak(t, STSC);
    lemma_in_trak(t, STSZ);
    lemma_in_trak(t, STCO);
    lemma_in_trak(t, SMHD);
    lemma_in_trak(t, VMHD);
    lemma_in_trak(t, DINF);
    lemma_minf(t, DINF);
    lemma_self_contained();
    lemma_minf(t, STSD);
    lemma_minf(t, STTS);
    lemma_minf(t, STSC);
    lemma_minf(t, STSZ);
    lemma_minf(t, STCO);
    lemma_minf(t, SMHD);
    lemma_minf(t, VMHD);
    assert(be32(zeros(8), 4) == 0 && be32(zeros(12), 4) == 0 && be32(zeros(12), 8) == 0);
}

/// The boxes at the top level of an init segment.
pub proof fn lemma_init_boxes(mp4: Mp4View)
    requires
        init_bytes(mp4).len() <= u32::MAX,
    ensures
        boxes_from(init_bytes(mp4), 0, FTYP) == seq![ftyp_bytes()],
        boxes_from(init_bytes(mp4), 0, MOOV) == seq![moov_bytes(mp4)],
        moov_bytes(mp4).len() + 8 <= u32::MAX,
{
    reveal(init_bytes);
    let moov = box_bytes(MOOV, moov_bytes(mp4));
    let none = Seq::<u8>::empty();
    assert(moov + none =~= moov);
    assert(child_at(none, 0) is None);
    lemma_boxes_cons(FTYP, ftyp_bytes(), moov, FTYP);
    lemma_boxes_cons(FTYP, ftyp_bytes(), moov, MOOV);
    lemma_boxes_cons(MOOV, moov_bytes(mp4), none, FTYP);
    lemma_boxes_cons(MOOV, moov_bytes(mp4), none, MOOV);
    assert(seq![ftyp_bytes()] + Seq::<Seq<u8>>::empty() =~= seq![ftyp_bytes()]);
    assert(seq![moov_bytes(mp4)] + Seq::<Seq<u8>>::empty() =~= seq![moov_bytes(mp4)]);
}

/// The boxes of the `moov` box of an init segment.
#[verifier::rlimit(40)]
pub proof fn lemma_moov_boxes(mp4: Mp4View)
    requires
        moov_bytes(mp4).len() + 8 <= u32::MAX,
    ensures
        boxes_from(moov_bytes(mp4), 0, MVHD) == seq![mvhd_bytes(mp4)],
        boxes_from(moov_bytes(mp4), 0, TRAK) == trak_list(mp4.tracks),
        boxes_from(moov_bytes(mp4), 0, MVEX) == seq![box_list(TREX, trex_list(mp4.tracks))],
        box_list(TREX, trex_list(mp4.tracks)).len() + 8 <= u32::MAX,
        box_list(TRAK, trak_list(mp4.tracks)).len() + 8 <= u32::MAX,
{
    reveal(moov_bytes);
    let mvhd = mvhd_bytes(mp4);
    let payloads = trak_list(mp4.tracks);
    let list = box_list(TRAK, payloads);
    let mvex = box_list(TREX, trex_list(mp4.tracks));
    let tail = box_bytes(MVEX, mvex);
    let none = Seq::<u8>::empty();
    let empty = Seq::<Seq<u8>>::empty();
    lemma_append(box_bytes(MVHD, mvhd), list, tail);
    assert(tail + none =~= tail);
    assert(child_at(none, 0) is None);
    lemma_box_list_len(TRAK, payloads);
    lemma_boxes_cons(MVHD, mvhd, list + tail, MVHD);
    lemma_boxes_cons(MVHD, mvhd, list + tail, TRAK);
    lemma_boxes_cons(MVHD, mvhd, list + tail, MVEX);
    lemma_box_list(TRAK, payloads, tail);
    lemma_other_list(TRAK, payloads, tail, MVHD);
    lemma_other_list(TRAK, payloads, tail, MVEX);
    lemma_boxes_cons(MVEX, mvex, none, MVHD);
    lemma_boxes_cons(MVEX, mvex, none, TRAK);
    lemma_boxes_cons(MVEX, mvex, none, MVEX);
    assert(seq![mvhd] + empty =~= seq![mvhd]);
    assert(payloads + empty =~= payloads);
    assert(seq![mvex] + empty =~= seq![mvex]);
}

proof fn lemma_other_list(kind: u32, payloads: Seq<Seq<u8>>, rest: Seq<u8>, other: u32)
    requires
        other != kind,
        forall|i: int|
            0 <= i < payloads.len() ==> (#[trigger] payloads[i]).len() + 8 <= u32::MAX,
    ensures
        boxes_from(box_list(kind, payloads) + rest, 0, other) == boxes_from(rest, 0, other),
    decreases payloads.len(),
{
    if payloads.len() == 0 {
        assert(box_list(kind, payloads) + rest =~= rest);
    } else {
        let before = payloads.drop_last();
        let last = payloads.last();
        lemma_append(box_list(kind, before), box_bytes(kind, last), rest);
        assert forall|i: int| 0 <= i < before.len() implies (#[trigger] before[i]).len() + 8
            <= u32::MAX by {
            assert(before[i] == payloads[i]);
        }
        lemma_other_list(kind, before, box_bytes(kind, last) + rest, other);
        lemma_boxes_cons(kind, last, rest, other);
    }
}

proof fn lemma_max_id(tracks: Seq<TrackView>)
    ensures
        forall|i: int| 0 <= i < tracks.len() ==> (#[trigger] tracks[i]).id <= max_id(tracks),
        tracks.len() > 0 ==> exists|i: int|
            0 <= i < tracks.len() && (#[trigger] tracks[i]).id == max_id(tracks),
        tracks.len() == 0 ==> max_id(tracks) == 0,
    decreases tracks.len(),
{
    if tracks.len() > 0 {
        let rest = tracks.drop_last();
        lemma_max_id(rest);
        let last = tracks[tracks.len() - 1];
        assert forall|i: int| 0 <= i < tracks.len() implies (#[trigger] tracks[i]).id <= max_id(
            tracks,
        ) by {
            if i < rest.len() {
                assert(rest[i] == tracks[i]);
            }
        }
        if max_id(tracks) == last.id {
            assert(tracks[tracks.len() - 1].id == max_id(tracks));
        } else {
            let k = choose|k: int| 0 <= k < rest.len() && (#[trigger] rest[k]).id == max_id(rest);
            assert(tracks[k] == rest[k]);
        }
    }
}

#[verifier::rlimit(40)]
proof fn lemma_mvhd(mp4: Mp4View)
    ensures
        ({
            let mvhd = mvhd_bytes(mp4);
            &&& mvhd.len() == 100
            &&& be32(mvhd, 0) == 0
            &&& be32(mvhd, 12) == mp4.timescale
            &&& be32(mvhd, 16) == 0
            &&& be32(mvhd, 20) == 0x1_0000
            &&& be16(mvhd, 24) == 0x100
            &&& is_unity(mvhd, 36)
            &&& be32(mvhd, 96) == low32((max_id(mp4.tracks) + 1) as nat)
        }),
{
    reveal(mvhd_bytes);
    let mvhd = mvhd_bytes(mp4);
    let next = low32((max_id(mp4.tracks) + 1) as nat);
    assert(mvhd.len() == 100);
    assert(mvhd[0] == 0 && mvhd[1] == 0 && mvhd[2] == 0 && mvhd[3] == 0);
    assert(mvhd.subrange(12, 16) =~= bytes32(mp4.timescale));
    assert(mvhd.subrange(16, 20) =~= bytes32(0));
    assert(mvhd.subrange(20, 24) =~= bytes32(0x1_0000));
    assert(mvhd.subrange(24, 26) =~= bytes16(0x100));
    assert(mvhd[24] == mvhd.subrange(24, 26)[0] && mvhd[25] == mvhd.subrange(24, 26)[1]);
    assert(mvhd.subrange(36, 72) =~= unity_matrix());
    assert(mvhd.subrange(96, 100) =~= bytes32(next));
    law_field_round_trip(mvhd, 12, mp4.timescale);
    law_field_round_trip(mvhd, 16, 0);
    law_field_round_trip(mvhd, 20, 0x1_0000);
    law_field_round_trip(mvhd, 96, next);
    lemma_unity(mvhd, 36);
}

/// The init segment holds one `ftyp`, with the brand `iso5` and the compatible brands `iso5`,
/// `iso6`, `mp41`, `avc1` and `cmfc`.
pub proof fn law_init_segment_names_its_brands(mp4: Mp4View)
    requires
        init_bytes(mp4).len() <= u32::MAX,
    ensures
        ({
            let ftyps = boxes_from(init_bytes(mp4), 0, FTYP);
            &&& ftyps.len() == 1
            &&& ftyps[0].len() == 28
            &&& be32(ftyps[0], 0) == 0x6973_6f35 && be32(ftyps[0], 8) == 0x6973_6f35
            &&& be32(ftyps[0], 12) == 0x6973_6f36 && be32(ftyps[0], 16) == 0x6d70_3431
            &&& be32(ftyps[0], 20) == 0x6176_6331 && be32(ftyps[0], 24) == 0x636d_6663
        }),
{
    lemma_init_boxes(mp4);
    lemma_ftyp();
}

/// The `moov` of the init segment holds a movie header with the movie's timescale, no
/// duration, and a next track identifier that is one above the highest.
#[verifier::rlimit(40)]
pub proof fn law_init_segment_heads_the_movie(mp4: Mp4View)
    requires
        init_bytes(mp4).len() <= u32::MAX,
    ensures
        ({
            let moovs = boxes_from(init_bytes(mp4), 0, MOOV);
            let mvhds = boxes_from(moovs[0], 0, MVHD);
            let next = be32(mvhds[0], 96);
            &&& moovs.len() == 1 && mvhds.len() == 1
            &&& mvhds[0].len() == 100
            &&& be32(mvhds[0], 0) == 0
            &&& be32(mvhds[0], 12) == mp4.timescale
            &&& be32(mvhds[0], 16) == 0
            &&& be32(mvhds[0], 20) == 0x1_0000
            &&& be16(mvhds[0], 24) == 0x100
            &&& is_unity(mvhds[0], 36)
            &&& mp4.tracks.len() == 0 ==> next == 1
            &&& (forall|i: int|
                0 <= i < mp4.tracks.len() ==> (#[trigger] mp4.tracks[i]).id < u32::MAX) ==> {
                &&& forall|i: int|
                    0 <= i < mp4.tracks.len() ==> (#[trigger] mp4.tracks[i]).id < next
                &&& mp4.tracks.len() > 0 ==> exists|i: int|
                    0 <= i < mp4.tracks.len() && (#[trigger] mp4.tracks[i]).id + 1 == next
            }
        }),
{
    lemma_init_boxes(mp4);
    lemma_moov_boxes(mp4);
    let mvhd = mvhd_bytes(mp4);
    let next = be32(mvhd, 96);
    lemma_mvhd(mp4);
    lemma_max_id(mp4.tracks);
    if forall|i: int| 0 <= i < mp4.tracks.len() ==> (#[trigger] mp4.tracks[i]).id < u32::MAX {
        if mp4.tracks.len() > 0 {
            let k = choose|k: int|
                0 <= k < mp4.tracks.len() && (#[trigger] mp4.tracks[k]).id == max_id(mp4.tracks);
            assert(mp4.tracks[k].id + 1 == next);
        }
    }
    assert(seq![mvhd][0] == mvhd);
}

proof fn lemma_ftyp()
    ensures
        ({
            let ftyp = ftyp_bytes();
            &&& ftyp.len() == 28
            &&& be32(ftyp, 0) == 0x6973_6f35 && be32(ftyp, 8) == 0x6973_6f35
            &&& be32(ftyp, 12) == 0x6973_6f36 && be32(ftyp, 16) == 0x6d70_3431
            &&& be32(ftyp, 20) == 0x6176_6331 && be32(ftyp, 24) == 0x636d_6663
        }),
{
    reveal(ftyp_bytes);
    let ftyp = ftyp_bytes();
    assert(ftyp.subrange(0, 4) =~= bytes32(crate::fmp4::ISO5));
    assert(ftyp.subrange(8, 12) =~= bytes32(crate::fmp4::ISO5));
    assert(ftyp.subrange(12, 16) =~= bytes32(crate::fmp4::ISO6));
    assert(ftyp.subrange(16, 20) =~= bytes32(crate::fmp4::MP41));
    assert(ftyp.subrange(20, 24) =~= bytes32(crate::fmp4::AVC1_BRAND));
    assert(ftyp.subrange(24, 28) =~= bytes32(crate::fmp4::CMFC));
    law_field_round_trip(ftyp, 0, crate::fmp4::ISO5);
    law_field_round_trip(ftyp, 8, crate::fmp4::ISO5);
    law_field_round_trip(ftyp, 12, crate::fmp4::ISO6);
    law_field_round_trip(ftyp, 16, crate::fmp4::MP41);
    law_field_round_trip(ftyp, 20, crate::fmp4::AVC1_BRAND);
    law_field_round_trip(ftyp, 24, crate::fmp4::CMFC);
}

/// The `moov` of the init segment holds one `trak` for each track, in order, which sets up
/// its decoder, and one `trex` in its `mvex`, which names it.
#[verifier::rlimit(40)]
pub proof fn law_init_segment_sets_up_every_track(mp4: Mp4View, i: int)
    requires
        init_bytes(mp4).len() <= u32::MAX,
        0 <= i < mp4.tracks.len(),
    ensures
        ({
            let moov = boxes_from(init_bytes(mp4), 0, MOOV)[0];
            let traks = boxes_from(moov, 0, TRAK);
            let mvexes = boxes_from(moov, 0, MVEX);
            let trexes = boxes_from(mvexes[0], 0, TREX);
            &&& traks.len() == mp4.tracks.len()
            &&& sets_up(traks[i], mp4.tracks[i])
            &&& mvexes.len() == 1
            &&& trexes.len() == mp4.tracks.len()
            &&& trexes[i].len() == 24
            &&& be32(trexes[i], 0) == 0
            &&& be32(trexes[i], 4) == mp4.tracks[i].id
            &&& be32(trexes[i], 8) == 1
            &&& be32(trexes[i], 12) == 0 && be32(trexes[i], 16) == 0 && be32(trexes[i], 20) == 0
        }),
{
    let t = mp4.tracks[i];
    lemma_init_boxes(mp4);
    lemma_moov_boxes(mp4);
    let payloads = trak_list(mp4.tracks);
    lemma_box_list_len(TRAK, payloads);
    assert(payloads[i] == trak_bytes(t));
    lemma_sets_up(t);
    let list = trex_list(mp4.tracks);
    let mvex = box_list(TREX, list);
    lemma_box_list_len(TREX, list);
    lemma_box_list(TREX, list, Seq::empty());
    assert(mvex + Seq::<u8>::empty() =~= mvex);
    assert(child_at(Seq::<u8>::empty(), 0) is None);
    assert(list + Seq::<Seq<u8>>::empty() =~= list);
    assert(list[i] == trex_bytes(t));
    lemma_trex(t);
}

proof fn lemma_trex(t: TrackView)
    ensures
        ({
            let trex = trex_bytes(t);
            &&& trex.len() == 24
            &&& be32(trex, 0) == 0
            &&& be32(trex, 4) == t.id
            &&& be32(trex, 8) == 1
            &&& be32(trex, 12) == 0 && be32(trex, 16) == 0 && be32(trex, 20) == 0
        }),
{
    reveal(trex_bytes);
    let trex = trex_bytes(t);
    assert(trex.len() == 24);
    assert(trex.subrange(4, 8) =~= bytes32(t.id));
    assert(trex.subrange(8, 12) =~= bytes32(1));
    law_field_round_trip(trex, 4, t.id);
    law_field_round_trip(trex, 8, 1);
    assert forall|k: int| (0 <= k < 4 || 12 <= k < 24) implies #[trigger] trex[k] == 0 by {}
}

} // verus!
