//! The sample table: joins `stsz`, `stsc`, `stco`, `stts`, `ctts` and `stss` into
//! one flat list of samples.

use vstd::prelude::*;

use crate::boxes::{
    be16, be32, be64, find_box, found, u16be, u32be, u64be, CO64, CTTS, STCO, STSC, STSS, STSZ,
    STTS, STZ2,
};
use crate::error::Invalid;
use crate::mp4::Sample;

verus! {

// --- sizes ---------------------------------------------------------------

/// The sample sizes that an `stsz` box declares: one size for all samples, or a
/// 32-bit size for each.
pub open spec fn stsz_sizes(b: Seq<u8>) -> Result<Seq<u32>, Invalid> {
    let uniform = be32(b, 4);
    let count = be32(b, 8);
    if b.len() < 12 {
        Err(Invalid::TruncatedBox)
    } else if uniform != 0 {
        Ok(Seq::new(count as nat, |i: int| uniform))
    } else if b.len() < 12 + 4 * count {
        Err(Invalid::TruncatedBox)
    } else {
        Ok(Seq::new(count as nat, |i: int| be32(b, 12 + 4 * i)))
    }
}

/// The size that an `stz2` box packs for sample `i` into `field` bits.
pub open spec fn packed_size(b: Seq<u8>, field: u8, i: int) -> u32 {
    if field == 4 {
        if i % 2 == 0 {
            (b[12 + i / 2] / 16) as u32
        } else {
            (b[12 + i / 2] % 16) as u32
        }
    } else if field == 8 {
        b[12 + i] as u32
    } else {
        be16(b, 12 + 2 * i) as u32
    }
}

/// The sample sizes that an `stz2` box declares, packed into fields of 4, 8 or 16
/// bits.
pub open spec fn stz2_sizes(b: Seq<u8>) -> Result<Seq<u32>, Invalid> {
    let field = b[7];
    let count = be32(b, 8);
    if b.len() < 8 {
        Err(Invalid::TruncatedStz2)
    } else if b.len() < 12 {
        Err(Invalid::TruncatedBox)
    } else if count == 0 {
        Ok(Seq::empty())
    } else if field == 4 && b.len() < 12 + (count + 1) / 2 {
        Err(Invalid::TruncatedStz2)
    } else if field == 8 && b.len() < 12 + count {
        Err(Invalid::TruncatedStz2)
    } else if field == 16 && b.len() < 12 + 2 * count {
        Err(Invalid::TruncatedBox)
    } else if field != 4 && field != 8 && field != 16 {
        Err(Invalid::UnsupportedStz2)
    } else {
        Ok(Seq::new(count as nat, |i: int| packed_size(b, field, i)))
    }
}

/// The sample sizes of a sample table.
pub open spec fn sample_sizes(stbl: Seq<u8>) -> Result<Seq<u32>, Invalid> {
    match found(stbl, STSZ) {
        Some(b) => stsz_sizes(b),
        None => match found(stbl, STZ2) {
            Some(b) => stz2_sizes(b),
            None => Err(Invalid::NoStsz),
        },
    }
}

fn parse_stz2(b: &[u8]) -> (r: Result<Vec<u32>, Invalid>)
    ensures
        match r {
            Ok(sizes) => stz2_sizes(b@) == Ok::<Seq<u32>, Invalid>(sizes@),
            Err(e) => stz2_sizes(b@) == Err::<Seq<u32>, Invalid>(e),
        },
{
    if b.len() < 8 {
        return Err(Invalid::TruncatedStz2);
    }
    let field: u8 = b[7];
    let count: u32 = u32be(b, 8)?;
    let len: u64 = b.len() as u64;
    let mut sizes: Vec<u32> = Vec::new();
    let mut i: u32 = 0;
    while i < count
        invariant
            i <= count,
            12 <= len == b@.len(),
            field == b@[7],
            count == be32(b@, 8),
            sizes@.len() == i,
            forall|j: int| 0 <= j < i ==> sizes@[j] == packed_size(b@, field, j),
            i > 0 ==> field == 4 || field == 8 || field == 16,
            field == 4 ==> 12 + (i + 1) / 2 <= len,
            field == 8 ==> 12 + i <= len,
            field == 16 ==> 12 + 2 * i <= len,
        decreases count - i,
    {
        let size: u32 = match field {
            4 => {
                let at: u64 = 12 + (i as u64) / 2;
                if at >= len {
                    return Err(Invalid::TruncatedStz2);
                }
                let byte: u8 = b[at as usize];
                if i % 2 == 0 {
                    (byte / 16) as u32
                } else {
                    (byte % 16) as u32
                }
            },
            8 => {
                let at: u64 = 12 + (i as u64);
                if at >= len {
                    return Err(Invalid::TruncatedStz2);
                }
                b[at as usize] as u32
            },
            16 => u16be(b, 12 + (i as u64) * 2)? as u32,
            _ => return Err(Invalid::UnsupportedStz2),
        };
        sizes.push(size);
        i = i + 1;
    }
    assert(count > 0 ==> sizes@ =~= Seq::new(count as nat, |i: int| packed_size(b@, field, i)));
    assert(count == 0 ==> sizes@ =~= Seq::empty());
    Ok(sizes)
}

/// Reads the size of every sample.
pub fn parse_stsz(stbl: &[u8]) -> (r: Result<Vec<u32>, Invalid>)
    ensures
        match r {
            Ok(sizes) => sample_sizes(stbl@) == Ok::<Seq<u32>, Invalid>(sizes@),
            Err(e) => sample_sizes(stbl@) == Err::<Seq<u32>, Invalid>(e),
        },
{
    let b = match find_box(stbl, STSZ) {
        Some(b) => b,
        None => match find_box(stbl, STZ2) {
            Some(b) => return parse_stz2(b),
            None => return Err(Invalid::NoStsz),
        },
    };
    let uniform: u32 = u32be(b, 4)?;
    let count: u32 = u32be(b, 8)?;
    if uniform != 0 {
        let sizes: Vec<u32> = vec![uniform; count as usize];
        assert(sizes@ =~= Seq::new(count as nat, |i: int| uniform));
        return Ok(sizes);
    }
    let mut sizes: Vec<u32> = Vec::new();
    let mut i: u32 = 0;
    while i < count
        invariant
            i <= count,
            count == be32(b@, 8),
            uniform == be32(b@, 4) == 0,
            12 + 4 * i <= b@.len(),
            found(stbl@, STSZ) == Some(b@),
            sizes@ == Seq::new(i as nat, |j: int| be32(b@, 12 + 4 * j)),
        decreases count - i,
    {
        sizes.push(u32be(b, 12 + (i as u64) * 4)?);
        i = i + 1;
    }
    Ok(sizes)
}

// --- chunks --------------------------------------------------------------

/// The chunk offsets of a sample table: `co64` where there is one, else `stco`.
pub open spec fn chunk_offsets(stbl: Seq<u8>) -> Result<Seq<u64>, Invalid> {
    match found(stbl, CO64) {
        Some(b) => if b.len() < 8 || b.len() < 8 + 8 * be32(b, 4) {
            Err(Invalid::TruncatedBox)
        } else {
            Ok(Seq::new(be32(b, 4) as nat, |i: int| be64(b, 8 + 8 * i)))
        },
        None => match found(stbl, STCO) {
            Some(b) => if b.len() < 8 || b.len() < 8 + 4 * be32(b, 4) {
                Err(Invalid::TruncatedBox)
            } else {
                Ok(Seq::new(be32(b, 4) as nat, |i: int| be32(b, 8 + 4 * i) as u64))
            },
            None => Err(Invalid::NoStco),
        },
    }
}

/// Reads the file offset of every chunk.
pub fn parse_chunk_offsets(stbl: &[u8]) -> (r: Result<Vec<u64>, Invalid>)
    ensures
        match r {
            Ok(offsets) => chunk_offsets(stbl@) == Ok::<Seq<u64>, Invalid>(offsets@),
            Err(e) => chunk_offsets(stbl@) == Err::<Seq<u64>, Invalid>(e),
        },
{
    let mut offsets: Vec<u64> = Vec::new();
    let mut i: u32 = 0;
    if let Some(b) = find_box(stbl, CO64) {
        let count: u32 = u32be(b, 4)?;
        while i < count
            invariant
                i <= count,
                count == be32(b@, 4),
                8 + 8 * i <= b@.len(),
                found(stbl@, CO64) == Some(b@),
                offsets@ == Seq::new(i as nat, |j: int| be64(b@, 8 + 8 * j)),
            decreases count - i,
        {
            offsets.push(u64be(b, 8 + (i as u64) * 8)?);
            i = i + 1;
        }
        return Ok(offsets);
    }
    let b = match find_box(stbl, STCO) {
        Some(b) => b,
        None => return Err(Invalid::NoStco),
    };
    let count: u32 = u32be(b, 4)?;
    while i < count
        invariant
            i <= count,
            count == be32(b@, 4),
            8 + 4 * i <= b@.len(),
            found(stbl@, CO64) is None,
            found(stbl@, STCO) == Some(b@),
            offsets@ == Seq::new(i as nat, |j: int| be32(b@, 8 + 4 * j) as u64),
        decreases count - i,
    {
        offsets.push(u32be(b, 8 + (i as u64) * 4)? as u64);
        i = i + 1;
    }
    Ok(offsets)
}

/// Offset of the byte after a sample, kept within `u64`.
pub open spec fn sample_end(offset: u64, size: u32) -> u64 {
    if offset + size > u64::MAX {
        u64::MAX
    } else {
        (offset + size) as u64
    }
}

/// The sample offsets after one more chunk: up to `room` further samples lie back
/// to back from `offset` on. `placed` holds the offsets so far.
pub open spec fn fill_chunk(placed: Seq<u64>, sizes: Seq<u32>, offset: u64, room: nat) -> Seq<u64>
    decreases room,
{
    if room == 0 || placed.len() >= sizes.len() {
        placed
    } else {
        fill_chunk(
            placed.push(offset),
            sizes,
            sample_end(offset, sizes[placed.len() as int]),
            (room - 1) as nat,
        )
    }
}

/// The sample offsets after the chunks `chunk..next`, which are numbered from 1
/// and end with the table of chunk offsets.
pub open spec fn fill_chunks(
    placed: Seq<u64>,
    sizes: Seq<u32>,
    offsets: Seq<u64>,
    chunk: int,
    next: int,
    per_chunk: nat,
) -> Seq<u64>
    decreases next - chunk,
{
    if chunk >= next || chunk - 1 >= offsets.len() {
        placed
    } else {
        fill_chunks(
            fill_chunk(placed, sizes, offsets[chunk - 1], per_chunk),
            sizes,
            offsets,
            chunk + 1,
            next,
            per_chunk,
        )
    }
}

/// A run of chunks that hold the same number of samples: the chunks
/// `first..next`, numbered from 1.
pub struct ChunkRun {
    pub first: u64,
    pub next: u64,
    pub per_chunk: u32,
}

/// The run of chunks of entry `entry` of an `stsc` box: it ends where the next
/// entry starts, the last one after the last of the `chunks` chunks.
pub open spec fn chunk_run(stsc: Seq<u8>, entry: int, chunks: nat) -> Result<ChunkRun, Invalid> {
    let base = 8 + 12 * entry;
    let is_last = entry + 1 >= be32(stsc, 4);
    let first = be32(stsc, base) as u64;
    let next: u64 = if is_last {
        (chunks + 1) as u64
    } else {
        be32(stsc, base + 12) as u64
    };
    if stsc.len() < base + 8 || (!is_last && stsc.len() < base + 16) {
        Err(Invalid::TruncatedBox)
    } else if first == 0 || next <= first {
        Err(Invalid::MalformedStsc)
    } else {
        Ok(ChunkRun { first, next, per_chunk: be32(stsc, base + 4) })
    }
}

/// The sample offsets after the `stsc` entries from `entry` on. The walk ends as
/// soon as every sample has its place.
pub open spec fn place_from(
    stsc: Seq<u8>,
    entry: int,
    sizes: Seq<u32>,
    offsets: Seq<u64>,
    placed: Seq<u64>,
) -> Result<Seq<u64>, Invalid>
    decreases be32(stsc, 4) - entry,
{
    if entry >= be32(stsc, 4) {
        Ok(placed)
    } else {
        match chunk_run(stsc, entry, offsets.len()) {
            Err(e) => Err(e),
            Ok(run) => {
                let now = fill_chunks(
                    placed,
                    sizes,
                    offsets,
                    run.first as int,
                    run.next as int,
                    run.per_chunk as nat,
                );
                if now.len() >= sizes.len() {
                    Ok(now)
                } else {
                    place_from(stsc, entry + 1, sizes, offsets, now)
                }
            },
        }
    }
}

/// The file offset of every sample of a table whose samples have the given sizes.
pub open spec fn sample_offsets(stbl: Seq<u8>, sizes: Seq<u32>) -> Result<Seq<u64>, Invalid> {
    match chunk_offsets(stbl) {
        Err(e) => Err(e),
        Ok(offsets) => match found(stbl, STSC) {
            None => Err(Invalid::NoStsc),
            Some(stsc) => if stsc.len() < 8 {
                Err(Invalid::TruncatedBox)
            } else {
                match place_from(stsc, 0, sizes, offsets, Seq::empty()) {
                    Err(e) => Err(e),
                    Ok(placed) => if placed.len() != sizes.len() {
                        Err(Invalid::InconsistentSampleTable)
                    } else {
                        Ok(placed)
                    },
                }
            },
        },
    }
}

/// Appends the offsets of up to `room` samples that lie back to back from
/// `chunk_offset` on.
fn place_chunk(placed: &mut Vec<u64>, sizes: &Vec<u32>, chunk_offset: u64, room: u32)
    requires
        old(placed)@.len() <= sizes@.len(),
    ensures
        final(placed)@ == fill_chunk(old(placed)@, sizes@, chunk_offset, room as nat),
        final(placed)@.len() <= sizes@.len(),
{
    let mut offset: u64 = chunk_offset;
    let mut left: u32 = room;
    while left > 0 && placed.len() < sizes.len()
        invariant
            placed@.len() <= sizes@.len(),
            left <= room,
            fill_chunk(placed@, sizes@, offset, left as nat) == fill_chunk(
                old(placed)@,
                sizes@,
                chunk_offset,
                room as nat,
            ),
        decreases left,
    {
        let size: u32 = sizes[placed.len()];
        placed.push(offset);
        offset = offset.saturating_add(size as u64);
        left = left - 1;
    }
}

/// Appends the offsets of the samples of one run of chunks.
fn place_run(placed: &mut Vec<u64>, sizes: &Vec<u32>, offsets: &Vec<u64>, run: &ChunkRun)
    requires
        old(placed)@.len() <= sizes@.len(),
        1 <= run.first < run.next,
    ensures
        final(placed)@ == fill_chunks(
            old(placed)@,
            sizes@,
            offsets@,
            run.first as int,
            run.next as int,
            run.per_chunk as nat,
        ),
        final(placed)@.len() <= sizes@.len(),
{
    let mut chunk: u64 = run.first;
    while chunk < run.next && chunk - 1 < offsets.len() as u64
        invariant
            1 <= run.first <= chunk <= run.next,
            placed@.len() <= sizes@.len(),
            fill_chunks(
                placed@,
                sizes@,
                offsets@,
                chunk as int,
                run.next as int,
                run.per_chunk as nat,
            ) == fill_chunks(
                old(placed)@,
                sizes@,
                offsets@,
                run.first as int,
                run.next as int,
                run.per_chunk as nat,
            ),
        decreases run.next - chunk,
    {
        place_chunk(placed, sizes, offsets[(chunk - 1) as usize], run.per_chunk);
        chunk = chunk + 1;
    }
}

/// Reads one entry of an `stsc` box.
fn read_chunk_run(stsc: &[u8], entry: u32, chunks: usize) -> (r: Result<ChunkRun, Invalid>)
    requires
        stsc@.len() >= 8,
        entry < be32(stsc@, 4),
        chunks <= u32::MAX,
    ensures
        r == chunk_run(stsc@, entry as int, chunks as nat),
{
    let entries: u32 = u32be(stsc, 4)?;
    let base: u64 = 8 + (entry as u64) * 12;
    let first: u64 = u32be(stsc, base)? as u64;
    let per_chunk: u32 = u32be(stsc, base + 4)?;
    let next: u64 = if entry + 1 < entries {
        u32be(stsc, base + 12)? as u64
    } else {
        chunks as u64 + 1
    };
    if first == 0 || next <= first {
        return Err(Invalid::MalformedStsc);
    }
    Ok(ChunkRun { first, next, per_chunk })
}

/// Works out the file offset of every sample.
fn place_samples(stbl: &[u8], sizes: &Vec<u32>) -> (r: Result<Vec<u64>, Invalid>)
    ensures
        match r {
            Ok(offsets) => sample_offsets(stbl@, sizes@) == Ok::<Seq<u64>, Invalid>(offsets@),
            Err(e) => sample_offsets(stbl@, sizes@) == Err::<Seq<u64>, Invalid>(e),
        },
{
    let offsets: Vec<u64> = parse_chunk_offsets(stbl)?;
    let stsc = match find_box(stbl, STSC) {
        Some(b) => b,
        None => return Err(Invalid::NoStsc),
    };
    let entries: u32 = u32be(stsc, 4)?;
    let mut placed: Vec<u64> = Vec::with_capacity(sizes.len());
    let mut entry: u32 = 0;
    while entry < entries
        invariant_except_break
            place_from(stsc@, entry as int, sizes@, offsets@, placed@) == place_from(
                stsc@,
                0,
                sizes@,
                offsets@,
                Seq::empty(),
            ),
        invariant
            entry <= entries == be32(stsc@, 4),
            stsc@.len() >= 8,
            chunk_offsets(stbl@) == Ok::<Seq<u64>, Invalid>(offsets@),
            offsets@.len() <= u32::MAX,
            found(stbl@, STSC) == Some(stsc@),
            placed@.len() <= sizes@.len(),
        ensures
            place_from(stsc@, 0, sizes@, offsets@, Seq::empty()) == Ok::<Seq<u64>, Invalid>(placed@),
        decreases entries - entry,
    {
        let run: ChunkRun = read_chunk_run(stsc, entry, offsets.len())?;
        place_run(&mut placed, sizes, &offsets, &run);
        if placed.len() >= sizes.len() {
            break;
        }
        entry = entry + 1;
    }
    if placed.len() != sizes.len() {
        return Err(Invalid::InconsistentSampleTable);
    }
    Ok(placed)
}

// --- timing --------------------------------------------------------------

/// Whether a table of `(run, value)` pairs holds every entry that it announces.
pub open spec fn is_run_table(b: Seq<u8>) -> bool {
    b.len() >= 8 && b.len() >= 8 + 8 * be32(b, 4)
}

/// The number of entries that a table of `(run, value)` pairs holds up to its end, or up to
/// where it is cut off.
pub open spec fn whole_runs(b: Seq<u8>) -> int {
    if is_run_table(b) {
        be32(b, 4) as int
    } else if b.len() < 8 {
        0
    } else {
        (b.len() - 8) / 8
    }
}

/// The value that a table of `(run, value)` pairs gives position `i`, counted from
/// the start of entry `entry`. Positions behind the last run have none.
pub open spec fn run_value(b: Seq<u8>, entry: int, i: int) -> Option<u32>
    decreases be32(b, 4) - entry,
{
    let run = be32(b, 8 + 8 * entry);
    if entry >= be32(b, 4) {
        None
    } else if i < run {
        Some(be32(b, 12 + 8 * entry))
    } else {
        run_value(b, entry + 1, i - run)
    }
}

/// The number of positions that the first `entries` runs of a table cover.
pub open spec fn covered(b: Seq<u8>, entries: int) -> nat
    decreases entries,
{
    if entries <= 0 {
        0
    } else {
        covered(b, entries - 1) + be32(b, 8 + 8 * (entries - 1)) as nat
    }
}

/// The decode duration of sample `i`. An `stts` that ends early repeats its last
/// duration.
pub open spec fn duration_at(stts: Seq<u8>, i: int) -> u32 {
    let total = covered(stts, be32(stts, 4) as int);
    match run_value(stts, 0, i) {
        Some(delta) => delta,
        None => if total == 0 {
            0
        } else {
            run_value(stts, 0, total - 1)->0
        },
    }
}

/// The decode time of sample `i`: the durations of all samples before it.
pub open spec fn dts_at(stts: Seq<u8>, i: int) -> nat
    decreases i,
{
    if i <= 0 {
        0
    } else {
        dts_at(stts, i - 1) + duration_at(stts, i - 1) as nat
    }
}

/// The two's complement reading of `v`.
pub open spec fn signed32(v: u32) -> i32 {
    if v < 0x8000_0000 {
        v as i32
    } else {
        (v - 0x1_0000_0000) as i32
    }
}

/// The composition offset of sample `i`, `before` where the table gives none. It is
/// signed in every version of the box.
pub open spec fn cts_at(stbl: Seq<u8>, i: int, before: i32) -> i32 {
    match found(stbl, CTTS) {
        None => before,
        Some(b) => match run_value(b, 0, i) {
            Some(v) => signed32(v),
            None => before,
        },
    }
}

/// Whether sample `i` is a sync sample: it is listed in `stss`, by its number
/// counted from 1, or there is no `stss`.
pub open spec fn sync_at(stbl: Seq<u8>, i: int) -> bool {
    match found(stbl, STSS) {
        None => true,
        Some(b) => listed(b, be32(b, 4) as int, i),
    }
}

/// Whether one of the first `entries` entries of an `stss` box names sample `i`.
pub open spec fn listed(b: Seq<u8>, entries: int, i: int) -> bool {
    exists|e: int| 0 <= e < entries && #[trigger] be32(b, 8 + 4 * e) == i + 1
}

/// What is wrong with the timing and sync tables, if anything.
pub open spec fn timing_fault(stbl: Seq<u8>) -> Option<Invalid> {
    match found(stbl, STTS) {
        None => Some(Invalid::NoStts),
        Some(b) => if !is_run_table(b) {
            Some(Invalid::TruncatedBox)
        } else {
            match found(stbl, CTTS) {
                None => None,
                Some(c) => if is_run_table(c) {
                    None
                } else {
                    Some(Invalid::TruncatedBox)
                },
            }
        },
    }
}

/// Sample `i` once its timing is set as far as the tables go: decode time and duration
/// from `stts`, which repeats its last duration unless it is cut off, and then the
/// composition offset from `ctts`.
pub open spec fn timed(stbl: Seq<u8>, s: Sample, i: int) -> Sample {
    match found(stbl, STTS) {
        None => s,
        Some(stts) => if !is_run_table(stts) && i >= covered(stts, whole_runs(stts)) {
            s
        } else {
            Sample {
                dts: dts_at(stts, i) as u64,
                duration: duration_at(stts, i),
                cts_offset: if is_run_table(stts) {
                    cts_read(stbl, i, s.cts_offset)
                } else {
                    s.cts_offset
                },
                ..s
            }
        },
    }
}

/// The composition offset of sample `i` as far as `ctts` goes.
pub open spec fn cts_read(stbl: Seq<u8>, i: int, before: i32) -> i32 {
    match found(stbl, CTTS) {
        None => before,
        Some(b) => if i < covered(b, whole_runs(b)) {
            cts_at(stbl, i, before)
        } else {
            before
        },
    }
}

/// The number of entries that an `stss` box holds up to its end, or up to where it is cut
/// off.
pub open spec fn whole_numbers(b: Seq<u8>) -> int {
    if b.len() < 8 {
        0
    } else if b.len() >= 8 + 4 * be32(b, 4) {
        be32(b, 4) as int
    } else {
        (b.len() - 8) / 4
    }
}

/// What is wrong with the table of sync samples, if anything.
pub open spec fn sync_fault(stbl: Seq<u8>) -> Option<Invalid> {
    match found(stbl, STSS) {
        None => None,
        Some(b) => if b.len() >= 8 && b.len() >= 8 + 4 * be32(b, 4) {
            None
        } else {
            Some(Invalid::TruncatedBox)
        },
    }
}

/// The samples that a sample table describes.
pub open spec fn table_samples(stbl: Seq<u8>) -> Result<Seq<Sample>, Invalid> {
    match sample_sizes(stbl) {
        Err(e) => Err(e),
        Ok(sizes) => if sizes.len() == 0 {
            Ok(Seq::empty())
        } else {
            match (sample_offsets(stbl, sizes), timing_fault(stbl), sync_fault(stbl)) {
                (Err(e), _, _) => Err(e),
                (Ok(_), Some(e), _) => Err(e),
                (Ok(_), None, Some(e)) => Err(e),
                (Ok(offsets), None, None) => Ok(
                    Seq::new(sizes.len(), |i: int| table_sample(stbl, sizes, offsets, i)),
                ),
            }
        },
    }
}

/// Sample `i` of a table with the given sizes and offsets.
pub open spec fn table_sample(
    stbl: Seq<u8>,
    sizes: Seq<u32>,
    offsets: Seq<u64>,
    i: int,
) -> Sample {
    let stts = found(stbl, STTS)->0;
    Sample {
        offset: offsets[i],
        size: sizes[i],
        dts: dts_at(stts, i) as u64,
        duration: duration_at(stts, i),
        cts_offset: cts_at(stbl, i, 0),
        is_sync: sync_at(stbl, i),
    }
}

/// A position behind the first runs of a table is looked up among the others.
pub proof fn lemma_run_value_skip(b: Seq<u8>, entry: int, i: int)
    requires
        0 <= entry <= be32(b, 4),
        i >= covered(b, entry),
    ensures
        run_value(b, 0, i) == run_value(b, entry, i - covered(b, entry)),
    decreases entry,
{
    if entry > 0 {
        lemma_run_value_skip(b, entry - 1, i);
    }
}

/// Decode times stay in 64 bits.
pub proof fn lemma_dts_bound(stts: Seq<u8>, i: int)
    requires
        0 <= i,
    ensures
        dts_at(stts, i) <= i * u32::MAX,
    decreases i,
{
    if i > 0 {
        lemma_dts_bound(stts, i - 1);
    }
}

/// Expands a table of `(run, value)` pairs to one value per position, for at most
/// `limit` positions, and tells whether the table holds every entry that it announces.
fn expand_runs(b: &[u8], limit: usize) -> (r: (Vec<u32>, bool))
    ensures
        r.1 == is_run_table(b@),
        r.0@.len() == if covered(b@, whole_runs(b@)) < limit {
            covered(b@, whole_runs(b@))
        } else {
            limit as nat
        },
        forall|i: int| 0 <= i < r.0@.len() ==> run_value(b@, 0, i) == Some(#[trigger] r.0@[i]),
{
    let mut values: Vec<u32> = Vec::new();
    let entries: u32 = match u32be(b, 4) {
        Ok(v) => v,
        Err(_) => return (values, false),
    };
    let mut entry: u32 = 0;
    while entry < entries
        invariant
            entry <= entries == be32(b@, 4),
            8 + 8 * entry <= b@.len(),
            values@.len() == if covered(b@, entry as int) < limit {
                covered(b@, entry as int)
            } else {
                limit as nat
            },
            forall|i: int|
                0 <= i < values@.len() ==> run_value(b@, 0, i) == Some(#[trigger] values@[i]),
        decreases entries - entry,
    {
        let base: u64 = 8 + (entry as u64) * 8;
        let (run, value): (u32, u32) = match (u32be(b, base), u32be(b, base + 4)) {
            (Ok(run), Ok(value)) => (run, value),
            _ => {
                assert(whole_runs(b@) == entry);
                return (values, false);
            },
        };
        let mut left: u32 = run;
        while left > 0 && values.len() < limit
            invariant
                entry < entries == be32(b@, 4),
                left <= run == be32(b@, 8 + 8 * entry),
                value == be32(b@, 12 + 8 * entry),
                values@.len() == if covered(b@, entry as int) + run - left < limit {
                    covered(b@, entry as int) + run - left
                } else {
                    limit as int
                },
                forall|i: int|
                    0 <= i < values@.len() ==> run_value(b@, 0, i) == Some(#[trigger] values@[i]),
            decreases left,
        {
            proof {
                lemma_run_value_skip(b@, entry as int, values@.len() as int);
            }
            values.push(value);
            left = left - 1;
        }
        entry = entry + 1;
    }
    (values, true)
}

/// Reads `v` as a two's complement number.
fn to_signed(v: u32) -> (r: i32)
    ensures
        r == signed32(v),
{
    if v < 0x8000_0000 {
        v as i32
    } else {
        (v as i64 - 0x1_0000_0000) as i32
    }
}

/// Sets the decode time and the duration of the first `n` samples: the durations in
/// `deltas`, and `tail` behind them.
fn set_times(
    samples: &mut Vec<Sample>,
    deltas: &[u32],
    tail: u32,
    n: usize,
    Ghost(stts): Ghost<Seq<u8>>,
)
    requires
        n <= old(samples)@.len() <= u32::MAX,
        forall|j: int|
            0 <= j < n ==> #[trigger] duration_at(stts, j) == if j < deltas@.len() {
                deltas@[j]
            } else {
                tail
            },
    ensures
        final(samples)@ == Seq::new(
            old(samples)@.len(),
            |i: int|
                if i < n {
                    Sample {
                        dts: dts_at(stts, i) as u64,
                        duration: duration_at(stts, i),
                        ..old(samples)@[i]
                    }
                } else {
                    old(samples)@[i]
                },
        ),
{
    let mut dts: u64 = 0;
    let mut i: usize = 0;
    while i < n
        invariant
            i <= n <= samples@.len() == old(samples)@.len() <= u32::MAX,
            dts == dts_at(stts, i as int),
            forall|j: int|
                0 <= j < n ==> #[trigger] duration_at(stts, j) == if j < deltas@.len() {
                    deltas@[j]
                } else {
                    tail
                },
            forall|j: int| i <= j < samples@.len() ==> samples@[j] == old(samples)@[j],
            forall|j: int|
                0 <= j < i ==> #[trigger] samples@[j] == (Sample {
                    dts: dts_at(stts, j) as u64,
                    duration: duration_at(stts, j),
                    ..old(samples)@[j]
                }),
        decreases n - i,
    {
        let sample: Sample = samples[i];
        let duration: u32 = if i < deltas.len() {
            deltas[i]
        } else {
            tail
        };
        proof {
            lemma_dts_bound(stts, i as int);
            assert(duration == duration_at(stts, i as int));
        }
        samples[i] = Sample {
            offset: sample.offset,
            size: sample.size,
            dts,
            duration,
            cts_offset: sample.cts_offset,
            is_sync: sample.is_sync,
        };
        dts = dts + duration as u64;
        i = i + 1;
    }
}

/// Sets the composition offsets of the first samples.
fn set_offsets(samples: &mut Vec<Sample>, offsets: &[u32])
    requires
        offsets@.len() <= old(samples)@.len(),
    ensures
        final(samples)@ == Seq::new(
            old(samples)@.len(),
            |i: int|
                if i < offsets@.len() {
                    Sample { cts_offset: signed32(offsets@[i]), ..old(samples)@[i] }
                } else {
                    old(samples)@[i]
                },
        ),
{
    let mut i: usize = 0;
    while i < offsets.len()
        invariant
            i <= offsets@.len() <= samples@.len() == old(samples)@.len(),
            forall|j: int| i <= j < samples@.len() ==> samples@[j] == old(samples)@[j],
            forall|j: int|
                0 <= j < i ==> #[trigger] samples@[j] == (Sample {
                    cts_offset: signed32(offsets@[j]),
                    ..old(samples)@[j]
                }),
        decreases offsets@.len() - i,
    {
        let sample: Sample = samples[i];
        samples[i] = Sample {
            offset: sample.offset,
            size: sample.size,
            dts: sample.dts,
            duration: sample.duration,
            cts_offset: to_signed(offsets[i]),
            is_sync: sample.is_sync,
        };
        i = i + 1;
    }
}

/// Sets the decode time and the duration of every sample, and the composition offset of
/// those that `ctts` covers. A table that is cut off is applied up to there.
pub fn apply_timing(stbl: &[u8], samples: &mut Vec<Sample>) -> (r: Result<(), Invalid>)
    requires
        old(samples)@.len() <= u32::MAX,
    ensures
        r == (match timing_fault(stbl@) {
            None => Ok::<(), Invalid>(()),
            Some(e) => Err(e),
        }),
        final(samples)@ == Seq::new(
            old(samples)@.len(),
            |i: int| timed(stbl@, old(samples)@[i], i),
        ),
{
    let count: usize = samples.len();
    let stts = match find_box(stbl, STTS) {
        Some(b) => b,
        None => {
            assert(samples@ =~= Seq::new(
                old(samples)@.len(),
                |i: int| timed(stbl@, old(samples)@[i], i),
            ));
            return Err(Invalid::NoStts);
        },
    };
    let (deltas, whole): (Vec<u32>, bool) = expand_runs(stts, count);
    if !whole {
        let read: usize = deltas.len();
        set_times(samples, deltas.as_slice(), 0, read, Ghost(stts@));
        assert(samples@ =~= Seq::new(
            old(samples)@.len(),
            |i: int| timed(stbl@, old(samples)@[i], i),
        ));
        return Err(Invalid::TruncatedBox);
    }
    // A short `stts` would otherwise leave trailing samples at zero duration and
    // collapse the timeline; repeat the last known delta instead.
    let tail: u32 = if deltas.len() > 0 {
        deltas[deltas.len() - 1]
    } else {
        0
    };
    proof {
        assert forall|j: int| 0 <= j < count implies #[trigger] duration_at(stts@, j) == if j
            < deltas@.len() {
            deltas@[j]
        } else {
            tail
        } by {
            if j >= deltas@.len() {
                lemma_run_value_skip(stts@, be32(stts@, 4) as int, j);
            }
        }
    }
    set_times(samples, deltas.as_slice(), tail, count, Ghost(stts@));
    let ctts = match find_box(stbl, CTTS) {
        Some(b) => b,
        None => {
            assert(samples@ =~= Seq::new(
                old(samples)@.len(),
                |i: int| timed(stbl@, old(samples)@[i], i),
            ));
            return Ok(());
        },
    };
    let (offsets, whole): (Vec<u32>, bool) = expand_runs(ctts, count);
    set_offsets(samples, offsets.as_slice());
    assert(samples@ =~= Seq::new(
        old(samples)@.len(),
        |i: int| timed(stbl@, old(samples)@[i], i),
    ));
    if whole {
        Ok(())
    } else {
        Err(Invalid::TruncatedBox)
    }
}

/// Sample `i` once it is marked, if it is a sync sample, as far as `stss` goes.
pub open spec fn marked(stbl: Seq<u8>, s: Sample, i: int) -> Sample {
    Sample {
        is_sync: s.is_sync || match found(stbl, STSS) {
            None => true,
            Some(b) => listed(b, whole_numbers(b), i),
        },
        ..s
    }
}

/// Marks the sync samples. A table that is cut off is applied up to there.
pub fn apply_sync(stbl: &[u8], samples: &mut Vec<Sample>) -> (r: Result<(), Invalid>)
    ensures
        r == (match sync_fault(stbl@) {
            None => Ok::<(), Invalid>(()),
            Some(e) => Err(e),
        }),
        final(samples)@ == Seq::new(
            old(samples)@.len(),
            |i: int| marked(stbl@, old(samples)@[i], i),
        ),
{
    let count: usize = samples.len();
    let stss = match find_box(stbl, STSS) {
        Some(b) => b,
        None => {
            // No `stss` means every sample is a sync sample.
            let mut i: usize = 0;
            while i < count
                invariant
                    i <= count == samples@.len() == old(samples)@.len(),
                    forall|j: int| i <= j < count ==> samples@[j] == old(samples)@[j],
                    forall|j: int|
                        0 <= j < i ==> #[trigger] samples@[j] == (Sample {
                            is_sync: true,
                            ..old(samples)@[j]
                        }),
                decreases count - i,
            {
                mark_sync(samples, i);
                i = i + 1;
            }
            assert(samples@ =~= Seq::new(
                old(samples)@.len(),
                |i: int| marked(stbl@, old(samples)@[i], i),
            ));
            return Ok(());
        },
    };
    let entries: u32 = match u32be(stss, 4) {
        Ok(v) => v,
        Err(e) => {
            assert(samples@ =~= Seq::new(
                old(samples)@.len(),
                |i: int| marked(stbl@, old(samples)@[i], i),
            ));
            return Err(e);
        },
    };
    let mut entry: u32 = 0;
    while entry < entries
        invariant
            found(stbl@, STSS) == Some(stss@),
            entry <= entries == be32(stss@, 4),
            8 + 4 * entry <= stss@.len(),
            count == samples@.len() == old(samples)@.len(),
            forall|j: int|
                0 <= j < count ==> #[trigger] samples@[j] == (Sample {
                    is_sync: old(samples)@[j].is_sync || listed(stss@, entry as int, j),
                    ..old(samples)@[j]
                }),
        decreases entries - entry,
    {
        let number: u32 = match u32be(stss, 8 + (entry as u64) * 4) {
            Ok(v) => v,
            Err(e) => {
                assert(whole_numbers(stss@) == entry);
                assert(samples@ =~= Seq::new(
                    old(samples)@.len(),
                    |i: int| marked(stbl@, old(samples)@[i], i),
                ));
                return Err(e);
            },
        };
        let ghost before = samples@;
        if number > 0 && (number as u64) <= count as u64 {
            mark_sync(samples, (number - 1) as usize);
        }
        proof {
            assert forall|j: int| 0 <= j < count implies listed(stss@, entry + 1, j) == (listed(
                stss@,
                entry as int,
                j,
            ) || number == j + 1) by {
                assert(be32(stss@, 8 + 4 * entry) == number);
                if listed(stss@, entry as int, j) {
                    let e = choose|e: int|
                        0 <= e < entry && #[trigger] be32(stss@, 8 + 4 * e) == j + 1;
                    assert(be32(stss@, 8 + 4 * e) == j + 1);
                }
            }
        }
        entry = entry + 1;
    }
    assert(samples@ =~= Seq::new(
        old(samples)@.len(),
        |i: int| marked(stbl@, old(samples)@[i], i),
    ));
    Ok(())
}

fn mark_sync(samples: &mut Vec<Sample>, i: usize)
    requires
        i < old(samples)@.len(),
    ensures
        final(samples)@ == old(samples)@.update(
            i as int,
            Sample { is_sync: true, ..old(samples)@[i as int] },
        ),
{
    let sample: Sample = samples[i];
    samples[i] = Sample {
        offset: sample.offset,
        size: sample.size,
        dts: sample.dts,
        duration: sample.duration,
        cts_offset: sample.cts_offset,
        is_sync: true,
    };
}

/// Joins the tables of `stbl` into one flat sample list.
pub fn build_samples(stbl: &[u8]) -> (r: Result<Vec<Sample>, Invalid>)
    ensures
        match r {
            Ok(samples) => table_samples(stbl@) == Ok::<Seq<Sample>, Invalid>(samples@),
            Err(e) => table_samples(stbl@) == Err::<Seq<Sample>, Invalid>(e),
        },
{
    let sizes: Vec<u32> = parse_stsz(stbl)?;
    let count: usize = sizes.len();
    if count == 0 {
        let none: Vec<Sample> = Vec::new();
        assert(none@ =~= Seq::<Sample>::empty());
        return Ok(none);
    }
    let offsets: Vec<u64> = place_samples(stbl, &sizes)?;
    let mut samples: Vec<Sample> = Vec::with_capacity(count);
    let mut i: usize = 0;
    while i < count
        invariant
            i <= count == sizes@.len() == offsets@.len(),
            samples@ == Seq::new(
                i as nat,
                |j: int|
                    Sample {
                        offset: offsets@[j],
                        size: sizes@[j],
                        dts: 0,
                        duration: 0,
                        cts_offset: 0,
                        is_sync: false,
                    },
            ),
        decreases count - i,
    {
        samples.push(
            Sample {
                offset: offsets[i],
                size: sizes[i],
                dts: 0,
                duration: 0,
                cts_offset: 0,
                is_sync: false,
            },
        );
        i = i + 1;
    }
    apply_timing(stbl, &mut samples)?;
    apply_sync(stbl, &mut samples)?;
    assert forall|i: int| 0 <= i < count implies #[trigger] cts_read(stbl@, i, 0) == cts_at(
        stbl@,
        i,
        0,
    ) by {
        if let Some(ctts) = found(stbl@, CTTS) {
            if i >= covered(ctts, whole_runs(ctts)) {
                lemma_run_value_skip(ctts, be32(ctts, 4) as int, i);
            }
        }
    }
    assert(samples@ =~= Seq::new(
        sizes@.len(),
        |i: int| table_sample(stbl@, sizes@, offsets@, i),
    ));
    Ok(samples)
}

/// The samples of a table are timed one after the other: the first is decoded at
/// 0, and each of the others when the one before it has run its duration. The
/// whole timeline fits in 64 bits.
pub proof fn lemma_table_duration(stbl: Seq<u8>)
    ensures
        match table_samples(stbl) {
            Ok(samples) => {
                &&& samples.len() <= u32::MAX
                &&& forall|i: int|
                    0 <= i < samples.len() ==> (#[trigger] samples[i]).dts + samples[i].duration
                        <= u64::MAX
                &&& samples.len() > 0 ==> samples[0].dts == 0
                &&& forall|i: int|
                    0 < i < samples.len() ==> (#[trigger] samples[i]).dts == samples[i - 1].dts
                        + samples[i - 1].duration
            },
            Err(_) => true,
        },
{
    if let Ok(samples) = table_samples(stbl) {
        if samples.len() > 0 {
            let stts = found(stbl, STTS)->0;
            assert forall|i: int| 0 <= i < samples.len() implies (#[trigger] samples[i]).dts
                == dts_at(stts, i) && samples[i].dts + samples[i].duration <= u64::MAX by {
                lemma_dts_bound(stts, i);
                lemma_dts_bound(stts, i + 1);
            }
        }
    }
}

/// Whether each of `placed` lies at the start of a chunk, or right behind the sample
/// before it; the first lies at the start of a chunk.
pub open spec fn in_chunks(placed: Seq<u64>, sizes: Seq<u32>, offsets: Seq<u64>) -> bool {
    forall|i: int|
        0 <= i < placed.len() ==> offsets.contains(#[trigger] placed[i]) || (i > 0 && placed[i]
            == sample_end(placed[i - 1], sizes[i - 1]))
}

proof fn lemma_chunk_in_chunks(
    placed: Seq<u64>,
    sizes: Seq<u32>,
    offsets: Seq<u64>,
    offset: u64,
    room: nat,
)
    requires
        in_chunks(placed, sizes, offsets),
        offsets.contains(offset) || (placed.len() > 0 && offset == sample_end(
            placed.last(),
            sizes[placed.len() - 1],
        )),
    ensures
        in_chunks(fill_chunk(placed, sizes, offset, room), sizes, offsets),
    decreases room,
{
    if room > 0 && placed.len() < sizes.len() {
        let now = placed.push(offset);
        assert(in_chunks(now, sizes, offsets)) by {
            assert forall|i: int| 0 <= i < now.len() implies offsets.contains(#[trigger] now[i]) || (
            i > 0 && now[i] == sample_end(now[i - 1], sizes[i - 1])) by {
                if i < placed.len() {
                    assert(now[i] == placed[i]);
                    if i > 0 {
                        assert(now[i - 1] == placed[i - 1]);
                    }
                }
            }
        }
        lemma_chunk_in_chunks(
            now,
            sizes,
            offsets,
            sample_end(offset, sizes[placed.len() as int]),
            (room - 1) as nat,
        );
    }
}

proof fn lemma_chunks_in_chunks(
    placed: Seq<u64>,
    sizes: Seq<u32>,
    offsets: Seq<u64>,
    chunk: int,
    next: int,
    per_chunk: nat,
)
    requires
        in_chunks(placed, sizes, offsets),
        1 <= chunk,
    ensures
        in_chunks(fill_chunks(placed, sizes, offsets, chunk, next, per_chunk), sizes, offsets),
    decreases next - chunk,
{
    if chunk < next && chunk - 1 < offsets.len() {
        assert(offsets.contains(offsets[chunk - 1]));
        lemma_chunk_in_chunks(placed, sizes, offsets, offsets[chunk - 1], per_chunk);
        lemma_chunks_in_chunks(
            fill_chunk(placed, sizes, offsets[chunk - 1], per_chunk),
            sizes,
            offsets,
            chunk + 1,
            next,
            per_chunk,
        );
    }
}

proof fn lemma_place_in_chunks(
    stsc: Seq<u8>,
    entry: int,
    sizes: Seq<u32>,
    offsets: Seq<u64>,
    placed: Seq<u64>,
)
    requires
        in_chunks(placed, sizes, offsets),
    ensures
        match place_from(stsc, entry, sizes, offsets, placed) {
            Ok(all) => in_chunks(all, sizes, offsets),
            Err(_) => true,
        },
    decreases be32(stsc, 4) - entry,
{
    if entry < be32(stsc, 4) {
        if let Ok(run) = chunk_run(stsc, entry, offsets.len()) {
            lemma_chunks_in_chunks(
                placed,
                sizes,
                offsets,
                run.first as int,
                run.next as int,
                run.per_chunk as nat,
            );
            let now = fill_chunks(
                placed,
                sizes,
                offsets,
                run.first as int,
                run.next as int,
                run.per_chunk as nat,
            );
            lemma_place_in_chunks(stsc, entry + 1, sizes, offsets, now);
        }
    }
}

/// Samples lie in chunks, back to back: each starts where a chunk starts or where the
/// sample before it ends, the first where a chunk starts.
pub proof fn law_samples_lie_in_chunks(stbl: Seq<u8>, sizes: Seq<u32>)
    ensures
        match (sample_offsets(stbl, sizes), chunk_offsets(stbl)) {
            (Ok(placed), Ok(offsets)) => placed.len() == sizes.len() && in_chunks(
                placed,
                sizes,
                offsets,
            ),
            (Ok(_), Err(_)) => false,
            (Err(_), _) => true,
        },
{
    if let (Ok(offsets), Some(stsc)) = (chunk_offsets(stbl), found(stbl, STSC)) {
        lemma_place_in_chunks(stsc, 0, sizes, offsets, Seq::empty());
    }
}

} // verus!
