//! Fragmented MP4 (CMAF) writer.
//!
//! Builds the two things an HLS player asks for: an *init segment* carrying the
//! movie header with empty sample tables, and *media segments* pairing a `moof`
//! index with the raw sample bytes copied out of the source file. The elementary
//! streams are never touched, so this is a remux, not a transcode.

use vstd::arithmetic::div_mod::{lemma_add_mod_noop, lemma_mod_mod, lemma_mod_multiples_vanish};
use vstd::prelude::*;

use crate::boxes::{
    bytes16, bytes32, bytes64, put, put16, put32, put64, HDLR, MDHD, MDIA, MINF, MOOV, MVHD, STBL,
    STCO, STSC, STSD, STSZ, STTS, TKHD, TRAK,
};
use crate::mp4::{Mp4, Mp4View, Sample, Track, TrackKind, TrackView, SOUN, VIDE};

verus! {

pub const FTYP: u32 = 0x6674_7970;
pub const STYP: u32 = 0x7374_7970;
pub const MOOF: u32 = 0x6d6f_6f66;
pub const MDAT: u32 = 0x6d64_6174;
pub const MVEX: u32 = 0x6d76_6578;
pub const TREX: u32 = 0x7472_6578;
pub const DINF: u32 = 0x6469_6e66;
pub const DREF: u32 = 0x6472_6566;
pub const URL: u32 = 0x7572_6c20;
pub const SMHD: u32 = 0x736d_6864;
pub const VMHD: u32 = 0x766d_6864;
pub const MFHD: u32 = 0x6d66_6864;
pub const TRAF: u32 = 0x7472_6166;
pub const TFHD: u32 = 0x7466_6864;
pub const TFDT: u32 = 0x7466_6474;
pub const TRUN: u32 = 0x7472_756e;

/// The brands `iso5`, `iso6`, `mp41`, `avc1`, `cmfc`, `msdh`, `msix` and `cmfs`.
pub const ISO5: u32 = 0x6973_6f35;
pub const ISO6: u32 = 0x6973_6f36;
pub const MP41: u32 = 0x6d70_3431;
pub const AVC1_BRAND: u32 = 0x6176_6331;
pub const CMFC: u32 = 0x636d_6663;
pub const MSDH: u32 = 0x6d73_6468;
pub const MSIX: u32 = 0x6d73_6978;
pub const CMFS: u32 = 0x636d_6673;

/// `sample_flags` for a keyframe: depends-on-others = 2 ("I-picture").
pub const FLAGS_SYNC: u32 = 0x0200_0000;
/// Non-keyframe: depends-on-others = 1, and the non-sync bit set.
pub const FLAGS_NON_SYNC: u32 = 0x0101_0000;

/// A contiguous run of samples of one track, as scheduled into one segment.
pub struct TrackRun<'a> {
    pub track: &'a Track,
    pub samples: &'a [Sample],
}

/// What a [`TrackRun`] holds.
pub struct RunView {
    pub track: TrackView,
    pub samples: Seq<Sample>,
}

impl<'a> View for TrackRun<'a> {
    type V = RunView;

    open spec fn view(&self) -> RunView {
        RunView { track: self.track@, samples: self.samples@ }
    }
}

// --- layout --------------------------------------------------------------

/// `n` as a 32-bit field holds it.
pub open spec fn low32(n: nat) -> u32 {
    (n % 0x1_0000_0000) as u32
}

/// `n` zero bytes.
pub open spec fn zeros(n: nat) -> Seq<u8> {
    Seq::new(n, |i: int| 0u8)
}

/// A box of type `kind` around `payload`: a 32-bit size that counts the header,
/// the type, the payload.
#[verifier::opaque]
pub open spec fn box_bytes(kind: u32, payload: Seq<u8>) -> Seq<u8> {
    bytes32(low32(payload.len() + 8)) + bytes32(kind) + payload
}

/// A box is 8 bytes longer than its payload.
pub broadcast proof fn lemma_box_len(kind: u32, payload: Seq<u8>)
    ensures
        #[trigger] box_bytes(kind, payload).len() == payload.len() + 8,
{
    reveal(box_bytes);
}

/// The identity transformation, in 16.16 and 2.30 fixed point.
pub open spec fn unity_matrix() -> Seq<u8> {
    bytes32(0x1_0000) + zeros(12) + bytes32(0x1_0000) + zeros(12) + bytes32(0x4000_0000)
}

#[verifier::opaque]
pub open spec fn ftyp_bytes() -> Seq<u8> {
    bytes32(ISO5) + bytes32(0) + bytes32(ISO5) + bytes32(ISO6) + bytes32(MP41) + bytes32(AVC1_BRAND)
        + bytes32(CMFC)
}

/// The largest track identifier, 0 where there is no track.
pub open spec fn max_id(tracks: Seq<TrackView>) -> u32
    decreases tracks.len(),
{
    if tracks.len() == 0 {
        0
    } else {
        let rest = max_id(tracks.drop_last());
        if rest > tracks.last().id {
            rest
        } else {
            tracks.last().id
        }
    }
}

/// `mvhd`: version and times are 0, the duration is unknown to a fragmented movie,
/// rate and volume are 1.0, and the next track identifier is one above the others.
#[verifier::opaque]
pub open spec fn mvhd_bytes(mp4: Mp4View) -> Seq<u8> {
    zeros(12) + bytes32(mp4.timescale) + bytes32(0) + bytes32(0x1_0000) + bytes16(0x100) + zeros(10)
        + unity_matrix() + zeros(24) + bytes32(low32((max_id(mp4.tracks) + 1) as nat))
}

/// `tkhd`: flags 3 = track_enabled | track_in_movie; only sound has a volume.
#[verifier::opaque]
pub open spec fn tkhd_bytes(track: TrackView) -> Seq<u8> {
    bytes32(3) + zeros(8) + bytes32(track.id) + zeros(20) + bytes16(
        if track.kind == TrackKind::Audio {
            0x100
        } else {
            0
        },
    ) + bytes16(0) + unity_matrix() + bytes32(track.width) + bytes32(track.height)
}

#[verifier::opaque]
pub open spec fn mdhd_bytes(track: TrackView) -> Seq<u8> {
    zeros(12) + bytes32(track.timescale) + bytes32(0) + bytes16(track.language) + bytes16(0)
}

/// `hdlr`: the handler type and its name, `SoundHandler` or `VideoHandler`, with
/// a zero behind it.
#[verifier::opaque]
pub open spec fn hdlr_bytes(track: TrackView) -> Seq<u8> {
    if track.kind == TrackKind::Audio {
        zeros(8) + bytes32(SOUN) + zeros(12) + bytes32(0x536f_756e) + bytes32(0x6448_616e)
            + bytes32(0x646c_6572) + zeros(1)
    } else {
        zeros(8) + bytes32(VIDE) + zeros(12) + bytes32(0x5669_6465) + bytes32(0x6f48_616e)
            + bytes32(0x646c_6572) + zeros(1)
    }
}

/// `smhd` for sound, else `vmhd` with flags 1.
pub open spec fn media_header_box(track: TrackView) -> Seq<u8> {
    if track.kind == TrackKind::Audio {
        box_bytes(SMHD, zeros(8))
    } else {
        box_bytes(VMHD, bytes32(1) + zeros(8))
    }
}

/// `dref` with a single self-contained entry (flags 1 = data in this file).
#[verifier::opaque]
pub open spec fn dref_bytes() -> Seq<u8> {
    zeros(4) + bytes32(1) + box_bytes(URL, bytes32(1))
}

/// The sample tables must be present but empty: the timing lives in `trun`.
#[verifier::opaque]
pub open spec fn stbl_bytes(track: TrackView) -> Seq<u8> {
    box_bytes(STSD, track.stsd) + box_bytes(STTS, zeros(8)) + box_bytes(STSC, zeros(8)) + box_bytes(
        STSZ,
        zeros(12),
    ) + box_bytes(STCO, zeros(8))
}

#[verifier::opaque]
pub open spec fn minf_bytes(track: TrackView) -> Seq<u8> {
    media_header_box(track) + box_bytes(DINF, box_bytes(DREF, dref_bytes())) + box_bytes(
        STBL,
        stbl_bytes(track),
    )
}

#[verifier::opaque]
pub open spec fn mdia_bytes(track: TrackView) -> Seq<u8> {
    box_bytes(MDHD, mdhd_bytes(track)) + box_bytes(HDLR, hdlr_bytes(track)) + box_bytes(
        MINF,
        minf_bytes(track),
    )
}

#[verifier::opaque]
pub open spec fn trak_bytes(track: TrackView) -> Seq<u8> {
    box_bytes(TKHD, tkhd_bytes(track)) + box_bytes(MDIA, mdia_bytes(track))
}

/// `trex`: the first sample description, and no defaults besides.
#[verifier::opaque]
pub open spec fn trex_bytes(track: TrackView) -> Seq<u8> {
    zeros(4) + bytes32(track.id) + bytes32(1) + zeros(12)
}

/// A box of type `kind` around each of `payloads`, one after the other.
pub open spec fn box_list(kind: u32, payloads: Seq<Seq<u8>>) -> Seq<u8>
    decreases payloads.len(),
{
    if payloads.len() == 0 {
        Seq::empty()
    } else {
        box_list(kind, payloads.drop_last()) + box_bytes(kind, payloads.last())
    }
}

/// The payloads of the `trak` boxes of all tracks.
pub open spec fn trak_list(tracks: Seq<TrackView>) -> Seq<Seq<u8>> {
    tracks.map_values(|t: TrackView| trak_bytes(t))
}

/// The payloads of the `trex` boxes of all tracks.
pub open spec fn trex_list(tracks: Seq<TrackView>) -> Seq<Seq<u8>> {
    tracks.map_values(|t: TrackView| trex_bytes(t))
}

#[verifier::opaque]
pub open spec fn moov_bytes(mp4: Mp4View) -> Seq<u8> {
    box_bytes(MVHD, mvhd_bytes(mp4)) + box_list(TRAK, trak_list(mp4.tracks)) + box_bytes(
        MVEX,
        box_list(TREX, trex_list(mp4.tracks)),
    )
}

/// The init segment of a movie.
#[verifier::opaque]
pub open spec fn init_bytes(mp4: Mp4View) -> Seq<u8> {
    box_bytes(FTYP, ftyp_bytes()) + box_bytes(MOOV, moov_bytes(mp4))
}

#[verifier::opaque]
pub open spec fn styp_bytes() -> Seq<u8> {
    bytes32(MSDH) + bytes32(0) + bytes32(MSDH) + bytes32(MSIX) + bytes32(CMFS)
}

/// The two's complement bits of `v`.
pub open spec fn unsigned32(v: i32) -> u32 {
    if v >= 0 {
        v as u32
    } else {
        (v + 0x1_0000_0000) as u32
    }
}

/// The entry of a sample in `trun`: duration, size, flags, composition offset.
pub open spec fn trun_entry(s: Sample) -> Seq<u8> {
    bytes32(s.duration) + bytes32(s.size) + bytes32(
        if s.is_sync {
            FLAGS_SYNC
        } else {
            FLAGS_NON_SYNC
        },
    ) + bytes32(unsigned32(s.cts_offset))
}

/// The entries of all samples of a run.
pub open spec fn trun_entries(samples: Seq<Sample>) -> Seq<u8>
    decreases samples.len(),
{
    if samples.len() == 0 {
        Seq::empty()
    } else {
        trun_entries(samples.drop_last()) + trun_entry(samples.last())
    }
}

/// The decode time of the first sample of a run.
pub open spec fn base_dts(samples: Seq<Sample>) -> u64 {
    if samples.len() == 0 {
        0
    } else {
        samples[0].dts
    }
}

/// `trun` version 1 (signed composition offsets), with per-sample duration, size,
/// flags and composition offset all present.
#[verifier::opaque]
pub open spec fn trun_bytes(samples: Seq<Sample>, data_offset: u32) -> Seq<u8> {
    bytes32(0x0100_0f01) + bytes32(low32(samples.len())) + bytes32(data_offset)
        + trun_entries(samples)
}

/// `traf`: `tfhd` with default-base-is-moof, which makes the data offset relative to
/// the enclosing `moof`; `tfdt` version 1 with a 64-bit decode time; `trun`.
#[verifier::opaque]
pub open spec fn traf_bytes(run: RunView, data_offset: u32) -> Seq<u8> {
    box_bytes(TFHD, bytes32(0x2_0000) + bytes32(run.track.id)) + box_bytes(
        TFDT,
        bytes32(0x100_0000) + bytes64(base_dts(run.samples)),
    ) + box_bytes(TRUN, trun_bytes(run.samples, data_offset))
}

/// Total sample bytes of a run.
pub open spec fn run_bytes(samples: Seq<Sample>) -> nat
    decreases samples.len(),
{
    if samples.len() == 0 {
        0
    } else {
        run_bytes(samples.drop_last()) + samples.last().size as nat
    }
}

/// Total sample bytes of a list of runs.
pub open spec fn data_len(runs: Seq<RunView>) -> nat
    decreases runs.len(),
{
    if runs.len() == 0 {
        0
    } else {
        data_len(runs.drop_last()) + run_bytes(runs.last().samples)
    }
}

/// Each run adds its sample bytes to those of the runs before it.
pub proof fn lemma_data_len_take(runs: Seq<RunView>, i: int)
    requires
        0 <= i < runs.len(),
    ensures
        data_len(runs.take(i + 1)) == data_len(runs.take(i)) + run_bytes(runs[i].samples),
        data_len(runs.take(i + 1)) <= data_len(runs),
    decreases runs.len(),
{
    assert(runs.take(i + 1).drop_last() =~= runs.take(i));
    if i + 1 < runs.len() {
        let before = runs.drop_last();
        assert(before.take(i + 1) =~= runs.take(i + 1));
        lemma_data_len_take(before, i);
    } else {
        assert(runs.take(i + 1) =~= runs);
    }
}

/// Length of the `traf` boxes of a list of runs.
pub open spec fn trafs_len(runs: Seq<RunView>) -> nat
    decreases runs.len(),
{
    if runs.len() == 0 {
        0
    } else {
        trafs_len(runs.drop_last()) + 64 + 16 * runs.last().samples.len()
    }
}

/// The payloads of the `traf` boxes of a list of runs, whose data starts at
/// `data_offset` and lies back to back.
pub open spec fn traf_list(runs: Seq<RunView>, data_offset: nat) -> Seq<Seq<u8>> {
    Seq::new(
        runs.len(),
        |i: int| traf_bytes(runs[i], low32(data_offset + data_len(runs.take(i)))),
    )
}

/// Where the sample data of a segment starts, counted from its `moof`: behind the
/// `moof`, its `mfhd` and `traf` boxes, and the header of `mdat`.
pub open spec fn first_data_offset(runs: Seq<RunView>) -> nat {
    8 + 16 + trafs_len(runs) + 8
}

#[verifier::opaque]
pub open spec fn moof_bytes(sequence: u32, runs: Seq<RunView>) -> Seq<u8> {
    box_bytes(MFHD, zeros(4) + bytes32(sequence)) + box_list(
        TRAF,
        traf_list(runs, first_data_offset(runs)),
    )
}

/// A media segment.
#[verifier::opaque]
pub open spec fn segment_bytes(sequence: u32, runs: Seq<RunView>, data: Seq<u8>) -> Seq<u8> {
    box_bytes(STYP, styp_bytes()) + box_bytes(MOOF, moof_bytes(sequence, runs)) + box_bytes(
        MDAT,
        data,
    )
}

// --- writers -------------------------------------------------------------

fn low_u32(n: u64) -> (r: u32)
    ensures
        r == low32(n as nat),
{
    (n % 0x1_0000_0000) as u32
}

fn put_zeros(out: &mut Vec<u8>, n: usize)
    ensures
        final(out)@ == old(out)@ + zeros(n as nat),
{
    let mut i: usize = 0;
    while i < n
        invariant
            i <= n,
            out@ == old(out)@ + zeros(i as nat),
        decreases n - i,
    {
        out.push(0);
        i = i + 1;
        assert(out@ =~= old(out)@ + zeros(i as nat));
    }
}

/// Appends a box of type `kind` around `payload`.
fn put_box(out: &mut Vec<u8>, kind: u32, payload: &[u8])
    ensures
        final(out)@ == old(out)@ + box_bytes(kind, payload@),
{
    let size: u32 = low_u32(payload.len() as u64 % 0x1_0000_0000 + 8);
    put32(out, size);
    put32(out, kind);
    put(out, payload);
    proof {
        reveal(box_bytes);
        lemma_add_mod_noop(payload@.len() as int, 8, 0x1_0000_0000);
        let head = bytes32(size) + bytes32(kind);
        lemma_append(old(out)@, bytes32(size), bytes32(kind));
        lemma_append(old(out)@, head, payload@);
    }
}

/// Wraps `payload` in a box of type `kind`.
pub fn boxed(kind: u32, payload: &[u8]) -> (r: Vec<u8>)
    ensures
        r@ == box_bytes(kind, payload@),
{
    let mut out: Vec<u8> = Vec::new();
    put_box(&mut out, kind, payload);
    assert(out@ =~= box_bytes(kind, payload@));
    out
}

/// Appends one more box to a list of boxes of type `kind` behind `head`.
fn put_next(
    out: &mut Vec<u8>,
    kind: u32,
    payload: &[u8],
    Ghost(head): Ghost<Seq<u8>>,
    Ghost(done): Ghost<Seq<Seq<u8>>>,
)
    requires
        old(out)@ == head + box_list(kind, done),
    ensures
        final(out)@ == head + box_list(kind, done.push(payload@)),
{
    put_box(out, kind, payload);
    proof {
        assert(done.push(payload@).drop_last() =~= done);
        lemma_append(head, box_list(kind, done), box_bytes(kind, payload@));
    }
}

fn put_matrix(out: &mut Vec<u8>)
    ensures
        final(out)@ == old(out)@ + unity_matrix(),
{
    put32(out, 0x1_0000);
    put_zeros(out, 12);
    put32(out, 0x1_0000);
    put_zeros(out, 12);
    put32(out, 0x4000_0000);
    assert(out@ =~= old(out)@ + unity_matrix());
}

fn mvhd(mp4: &Mp4) -> (r: Vec<u8>)
    ensures
        r@ == mvhd_bytes(mp4@),
{
    let mut b: Vec<u8> = Vec::new();
    put_zeros(&mut b, 12);  // version and flags, creation_time, modification_time
    put32(&mut b, mp4.timescale);
    // Duration is unknown to a fragmented movie header; `mehd` is optional and
    // players take the total from the playlist instead.
    put32(&mut b, 0);
    put32(&mut b, 0x1_0000);  // rate 1.0
    put16(&mut b, 0x100);  // volume 1.0
    put_zeros(&mut b, 10);  // reserved
    put_matrix(&mut b);
    put_zeros(&mut b, 24);  // pre_defined
    let mut highest: u32 = 0;
    let mut i: usize = 0;
    while i < mp4.tracks.len()
        invariant
            i <= mp4.tracks@.len() == mp4@.tracks.len(),
            highest == max_id(mp4@.tracks.take(i as int)),
        decreases mp4.tracks@.len() - i,
    {
        assert(mp4@.tracks.take(i + 1).drop_last() =~= mp4@.tracks.take(i as int));
        if mp4.tracks[i].id >= highest {
            highest = mp4.tracks[i].id;
        }
        i = i + 1;
    }
    assert(mp4@.tracks.take(i as int) =~= mp4@.tracks);
    put32(&mut b, low_u32(highest as u64 + 1));
    assert(b@ =~= mvhd_bytes(mp4@)) by {
        reveal(mvhd_bytes);
    }
    b
}

fn tkhd(track: &Track) -> (r: Vec<u8>)
    ensures
        r@ == tkhd_bytes(track@),
{
    let mut b: Vec<u8> = Vec::new();
    put32(&mut b, 3);  // track_enabled | track_in_movie
    put_zeros(&mut b, 8);  // creation_time, modification_time
    put32(&mut b, track.id);
    put_zeros(&mut b, 20);  // duration, layer, alternate_group and reserved fields
    let volume: u16 = if track.kind == TrackKind::Audio {
        0x100
    } else {
        0
    };
    put16(&mut b, volume);
    put16(&mut b, 0);  // reserved
    put_matrix(&mut b);
    put32(&mut b, track.width);
    put32(&mut b, track.height);
    assert(b@ =~= tkhd_bytes(track@)) by {
        reveal(tkhd_bytes);
    }
    b
}

fn trak(track: &Track) -> (r: Vec<u8>)
    ensures
        r@ == trak_bytes(track@),
{
    let mut b: Vec<u8> = Vec::new();
    put_box(&mut b, TKHD, tkhd(track).as_slice());
    put_box(&mut b, MDIA, mdia(track).as_slice());
    assert(b@ =~= trak_bytes(track@)) by {
        reveal(trak_bytes);
    }
    b
}

fn mdia(track: &Track) -> (r: Vec<u8>)
    ensures
        r@ == mdia_bytes(track@),
{
    let mut mdhd: Vec<u8> = Vec::new();
    put_zeros(&mut mdhd, 12);  // version and flags, creation_time, modification_time
    put32(&mut mdhd, track.timescale);
    put32(&mut mdhd, 0);  // duration
    put16(&mut mdhd, track.language);
    put16(&mut mdhd, 0);  // pre_defined
    assert(mdhd@ =~= mdhd_bytes(track@)) by {
        reveal(mdhd_bytes);
    }

    let mut hdlr: Vec<u8> = Vec::new();
    put_zeros(&mut hdlr, 8);  // version and flags, pre_defined
    if track.kind == TrackKind::Audio {
        put32(&mut hdlr, SOUN);
        put_zeros(&mut hdlr, 12);  // reserved
        put32(&mut hdlr, 0x536f_756e);
        put32(&mut hdlr, 0x6448_616e);
    } else {
        put32(&mut hdlr, VIDE);
        put_zeros(&mut hdlr, 12);  // reserved
        put32(&mut hdlr, 0x5669_6465);
        put32(&mut hdlr, 0x6f48_616e);
    }
    put32(&mut hdlr, 0x646c_6572);
    put_zeros(&mut hdlr, 1);
    assert(hdlr@ =~= hdlr_bytes(track@)) by {
        reveal(hdlr_bytes);
    }

    let mut b: Vec<u8> = Vec::new();
    put_box(&mut b, MDHD, mdhd.as_slice());
    put_box(&mut b, HDLR, hdlr.as_slice());
    put_box(&mut b, MINF, minf(track).as_slice());
    assert(b@ =~= mdia_bytes(track@)) by {
        reveal(mdia_bytes);
    }
    b
}

fn minf(track: &Track) -> (r: Vec<u8>)
    ensures
        r@ == minf_bytes(track@),
{
    let mut b: Vec<u8> = Vec::new();
    let mut header: Vec<u8> = Vec::new();
    if track.kind == TrackKind::Audio {
        put_zeros(&mut header, 8);
        assert(header@ =~= zeros(8));
        put_box(&mut b, SMHD, header.as_slice());
    } else {
        // version 0, flags 1, graphicsmode 0, opcolor {0,0,0}
        put32(&mut header, 1);
        put_zeros(&mut header, 8);
        assert(header@ =~= bytes32(1) + zeros(8));
        put_box(&mut b, VMHD, header.as_slice());
    }
    assert(b@ =~= media_header_box(track@));

    let mut flags: Vec<u8> = Vec::new();
    put32(&mut flags, 1);
    assert(flags@ =~= bytes32(1));
    let mut dref: Vec<u8> = Vec::new();
    put_zeros(&mut dref, 4);
    put32(&mut dref, 1);  // entry_count
    put_box(&mut dref, URL, flags.as_slice());
    assert(dref@ =~= dref_bytes()) by {
        reveal(dref_bytes);
    }
    put_box(&mut b, DINF, boxed(DREF, dref.as_slice()).as_slice());

    let mut empty: Vec<u8> = Vec::new();
    put_zeros(&mut empty, 8);
    assert(empty@ =~= zeros(8));
    let mut stbl: Vec<u8> = Vec::new();
    put_box(&mut stbl, STSD, track.stsd.as_slice());
    put_box(&mut stbl, STTS, empty.as_slice());
    put_box(&mut stbl, STSC, empty.as_slice());
    // stsz also carries a zero sample_size before the zero count.
    let mut no_sizes: Vec<u8> = Vec::new();
    put_zeros(&mut no_sizes, 12);
    assert(no_sizes@ =~= zeros(12));
    put_box(&mut stbl, STSZ, no_sizes.as_slice());
    put_box(&mut stbl, STCO, empty.as_slice());
    assert(stbl@ =~= stbl_bytes(track@)) by {
        reveal(stbl_bytes);
    }
    put_box(&mut b, STBL, stbl.as_slice());
    assert(b@ =~= minf_bytes(track@)) by {
        reveal(minf_bytes);
    }
    b
}

fn trex(track: &Track) -> (r: Vec<u8>)
    ensures
        r@ == trex_bytes(track@),
{
    let mut b: Vec<u8> = Vec::new();
    put_zeros(&mut b, 4);
    put32(&mut b, track.id);
    put32(&mut b, 1);  // default_sample_description_index
    put_zeros(&mut b, 12);  // default duration, size and flags
    assert(b@ =~= trex_bytes(track@)) by {
        reveal(trex_bytes);
    }
    b
}

/// Builds the init segment (`ftyp` + `moov`) describing every track.
pub fn init_segment(mp4: &Mp4) -> (r: Vec<u8>)
    ensures
        r@ == init_bytes(mp4@),
{
    let mut ftyp: Vec<u8> = Vec::new();
    put32(&mut ftyp, ISO5);
    put32(&mut ftyp, 0);  // minor_version
    put32(&mut ftyp, ISO5);
    put32(&mut ftyp, ISO6);
    put32(&mut ftyp, MP41);
    put32(&mut ftyp, AVC1_BRAND);
    put32(&mut ftyp, CMFC);
    assert(ftyp@ =~= ftyp_bytes()) by {
        reveal(ftyp_bytes);
    }

    let mut moov: Vec<u8> = Vec::new();
    put_box(&mut moov, MVHD, mvhd(mp4).as_slice());
    assert(moov@ =~= box_bytes(MVHD, mvhd_bytes(mp4@)));
    let ghost head = moov@;
    let ghost none = Seq::<u8>::empty();
    let ghost traks = trak_list(mp4@.tracks);
    let ghost trexes = trex_list(mp4@.tracks);
    let mut mvex: Vec<u8> = Vec::new();
    let mut i: usize = 0;
    assert(moov@ =~= head + box_list(TRAK, traks.take(0)));
    assert(mvex@ =~= none + box_list(TREX, trexes.take(0)));
    while i < mp4.tracks.len()
        invariant
            i <= mp4.tracks@.len() == mp4@.tracks.len() == traks.len() == trexes.len(),
            traks == trak_list(mp4@.tracks),
            trexes == trex_list(mp4@.tracks),
            moov@ == head + box_list(TRAK, traks.take(i as int)),
            mvex@ == none + box_list(TREX, trexes.take(i as int)),
        decreases mp4.tracks@.len() - i,
    {
        let trak: Vec<u8> = trak(&mp4.tracks[i]);
        let trex: Vec<u8> = trex(&mp4.tracks[i]);
        put_next(&mut moov, TRAK, trak.as_slice(), Ghost(head), Ghost(traks.take(i as int)));
        put_next(&mut mvex, TREX, trex.as_slice(), Ghost(none), Ghost(trexes.take(i as int)));
        assert(traks.take(i + 1) =~= traks.take(i as int).push(trak@));
        assert(trexes.take(i + 1) =~= trexes.take(i as int).push(trex@));
        i = i + 1;
    }
    assert(traks.take(i as int) =~= traks);
    assert(trexes.take(i as int) =~= trexes);
    assert(mvex@ =~= box_list(TREX, trexes));
    put_box(&mut moov, MVEX, mvex.as_slice());
    assert(moov@ =~= moov_bytes(mp4@)) by {
        reveal(moov_bytes);
    }

    let mut out: Vec<u8> = Vec::new();
    put_box(&mut out, FTYP, ftyp.as_slice());
    put_box(&mut out, MOOV, moov.as_slice());
    assert(out@ =~= init_bytes(mp4@)) by {
        reveal(init_bytes);
    }
    out
}

fn to_unsigned(v: i32) -> (r: u32)
    ensures
        r == unsigned32(v),
{
    if v >= 0 {
        v as u32
    } else {
        (v as i64 + 0x1_0000_0000) as u32
    }
}

/// Total sample bytes a run contributes to the `mdat`, modulo 2^64, which only a run
/// of more than 2^32 samples can exceed.
pub fn run_data_len(samples: &[Sample]) -> (r: u64)
    ensures
        r == run_bytes(samples@) % 0x1_0000_0000_0000_0000,
        run_bytes(samples@) <= u64::MAX ==> r == run_bytes(samples@),
{
    let mut total: u64 = 0;
    let mut i: usize = 0;
    while i < samples.len()
        invariant
            i <= samples@.len(),
            total == run_bytes(samples@.take(i as int)) % 0x1_0000_0000_0000_0000,
        decreases samples@.len() - i,
    {
        assert(samples@.take(i + 1).drop_last() =~= samples@.take(i as int));
        total = total.wrapping_add(samples[i].size as u64);
        i = i + 1;
    }
    assert(samples@.take(i as int) =~= samples@);
    total
}

/// Builds the `traf` payload of a run whose data starts at `data_offset`.
fn traf(run: &TrackRun<'_>, data_offset: u32) -> (r: Vec<u8>)
    ensures
        r@ == traf_bytes(run@, data_offset),
{
    // default-base-is-moof (0x020000) makes sample offsets relative to the
    // enclosing `moof`, which is what `trun.data_offset` below assumes.
    let mut tfhd: Vec<u8> = Vec::new();
    put32(&mut tfhd, 0x2_0000);
    put32(&mut tfhd, run.track.id);
    assert(tfhd@ =~= bytes32(0x2_0000) + bytes32(run@.track.id));

    // tfdt version 1: 64 bit baseMediaDecodeTime, in the track timescale.
    let mut tfdt: Vec<u8> = Vec::new();
    put32(&mut tfdt, 0x100_0000);
    put64(
        &mut tfdt,
        if run.samples.len() == 0 {
            0
        } else {
            run.samples[0].dts
        },
    );
    assert(tfdt@ =~= bytes32(0x100_0000) + bytes64(base_dts(run@.samples)));

    let mut trun: Vec<u8> = Vec::new();
    put32(&mut trun, 0x0100_0f01);
    put32(&mut trun, low_u32(run.samples.len() as u64));
    put32(&mut trun, data_offset);
    let ghost head = trun@;
    let mut i: usize = 0;
    assert(trun@ =~= head + trun_entries(run@.samples.take(0)));
    while i < run.samples.len()
        invariant
            i <= run.samples@.len() == run@.samples.len(),
            trun@ == head + trun_entries(run@.samples.take(i as int)),
        decreases run.samples@.len() - i,
    {
        assert(run@.samples.take(i + 1).drop_last() =~= run@.samples.take(i as int));
        let sample: Sample = run.samples[i];
        put32(&mut trun, sample.duration);
        put32(&mut trun, sample.size);
        put32(
            &mut trun,
            if sample.is_sync {
                FLAGS_SYNC
            } else {
                FLAGS_NON_SYNC
            },
        );
        put32(&mut trun, to_unsigned(sample.cts_offset));
        i = i + 1;
        assert(trun@ =~= head + trun_entries(run@.samples.take(i as int)));
    }
    assert(run@.samples.take(i as int) =~= run@.samples);
    assert(trun@ =~= trun_bytes(run@.samples, data_offset)) by {
        reveal(trun_bytes);
    }

    let mut b: Vec<u8> = Vec::new();
    put_box(&mut b, TFHD, tfhd.as_slice());
    put_box(&mut b, TFDT, tfdt.as_slice());
    put_box(&mut b, TRUN, trun.as_slice());
    assert(b@ =~= traf_bytes(run@, data_offset)) by {
        reveal(traf_bytes);
    }
    b
}

/// Appending is associative.
pub proof fn lemma_append(a: Seq<u8>, b: Seq<u8>, c: Seq<u8>)
    ensures
        (a + b) + c == a + (b + c),
{
    assert((a + b) + c =~= a + (b + c));
}

/// What the elements of `runs` hold.
pub open spec fn run_views(runs: Seq<TrackRun<'_>>) -> Seq<RunView> {
    runs.map_values(|r: TrackRun<'_>| r@)
}

proof fn lemma_total(before: nat, count: nat)
    ensures
        ((32 + before) % 0x1_0000_0000 + 64 + 16 * (count % 0x1_0000_0000)) % 0x1_0000_0000 == (32
            + before + 64 + 16 * count) % 0x1_0000_0000,
{
    let m = 0x1_0000_0000int;
    let a = (32 + before) as int / m;
    let b = count as int / m;
    let low = (32 + before) as int % m + 64 + 16 * (count as int % m);
    assert(m * (a + 16 * b) + low == 32 + before + 64 + 16 * count);
    lemma_mod_multiples_vanish(a + 16 * b, low, m);
}

/// Works out where the sample data starts, counted from the `moof`.
fn data_start(runs: &[TrackRun<'_>]) -> (r: u32)
    ensures
        r == low32(first_data_offset(run_views(runs@))),
{
    let ghost views = run_views(runs@);
    let mut total: u64 = 32;
    let mut i: usize = 0;
    while i < runs.len()
        invariant
            i <= runs@.len() == views.len(),
            views == run_views(runs@),
            total == (32 + trafs_len(views.take(i as int))) % 0x1_0000_0000,
        decreases runs@.len() - i,
    {
        assert(views.take(i + 1).drop_last() =~= views.take(i as int));
        let count: u64 = runs[i].samples.len() as u64 % 0x1_0000_0000;
        proof {
            assert(views[i as int].samples == runs@[i as int].samples@);
            lemma_total(trafs_len(views.take(i as int)), runs@[i as int].samples@.len());
        }
        total = (total + 64 + 16 * count) % 0x1_0000_0000;
        i = i + 1;
    }
    assert(views.take(i as int) =~= views);
    total as u32
}

/// The data offset behind a run whose data starts at `data_offset`.
fn advance(data_offset: u32, samples: &[Sample]) -> (r: u32)
    ensures
        forall|start: nat|
            data_offset == #[trigger] low32(start) ==> r == low32(start + run_bytes(samples@)),
{
    let len: u64 = run_data_len(samples);
    proof {
        let total = run_bytes(samples@) as int;
        lemma_mod_mod(total, 0x1_0000_0000, 0x1_0000_0000);
        assert forall|start: nat| data_offset == #[trigger] low32(start) implies low32(
            (data_offset + len % 0x1_0000_0000) as nat,
        ) == low32(start + run_bytes(samples@)) by {
            lemma_add_mod_noop(start as int, total, 0x1_0000_0000);
        }
    }
    low_u32(data_offset as u64 + len % 0x1_0000_0000)
}

/// Builds one media segment (`styp` + `moof` + `mdat`).
///
/// `data` must hold every run's sample bytes concatenated in run order, which is
/// the layout the `trun.data_offset` fields describe.
pub fn media_segment(sequence: u32, runs: &[TrackRun<'_>], data: &[u8]) -> (r: Vec<u8>)
    ensures
        r@ == segment_bytes(sequence, run_views(runs@), data@),
{
    let mut styp: Vec<u8> = Vec::new();
    put32(&mut styp, MSDH);
    put32(&mut styp, 0);  // minor_version
    put32(&mut styp, MSDH);
    put32(&mut styp, MSIX);
    put32(&mut styp, CMFS);
    assert(styp@ =~= styp_bytes()) by {
        reveal(styp_bytes);
    }

    let ghost views = run_views(runs@);
    let ghost start = first_data_offset(views);
    let mut mfhd: Vec<u8> = Vec::new();
    put_zeros(&mut mfhd, 4);
    put32(&mut mfhd, sequence);
    assert(mfhd@ =~= zeros(4) + bytes32(sequence));
    let mut moof: Vec<u8> = Vec::new();
    put_box(&mut moof, MFHD, mfhd.as_slice());
    let ghost head = moof@;
    // Each run's data follows the previous one's.
    let ghost trafs = traf_list(views, start);
    let mut data_offset: u32 = data_start(runs);
    let mut i: usize = 0;
    assert(moof@ =~= head + box_list(TRAF, trafs.take(0)));
    while i < runs.len()
        invariant
            i <= runs@.len() == views.len() == trafs.len(),
            views == run_views(runs@),
            trafs == traf_list(views, start),
            data_offset == low32(start + data_len(views.take(i as int))),
            moof@ == head + box_list(TRAF, trafs.take(i as int)),
        decreases runs@.len() - i,
    {
        assert(views.take(i + 1).drop_last() =~= views.take(i as int));
        assert(views[i as int] == runs@[i as int]@);
        let traf: Vec<u8> = traf(&runs[i], data_offset);
        put_next(&mut moof, TRAF, traf.as_slice(), Ghost(head), Ghost(trafs.take(i as int)));
        assert(trafs.take(i + 1) =~= trafs.take(i as int).push(traf@));
        data_offset = advance(data_offset, runs[i].samples);
        i = i + 1;
    }
    assert(trafs.take(i as int) =~= trafs);
    assert(head =~= box_bytes(MFHD, zeros(4) + bytes32(sequence)));
    assert(moof@ =~= moof_bytes(sequence, views)) by {
        reveal(moof_bytes);
    }

    let mut out: Vec<u8> = Vec::new();
    put_box(&mut out, STYP, styp.as_slice());
    put_box(&mut out, MOOF, moof.as_slice());
    put_box(&mut out, MDAT, data);
    assert(out@ =~= segment_bytes(sequence, views, data@)) by {
        reveal(segment_bytes);
    }
    out
}

} // verus!
