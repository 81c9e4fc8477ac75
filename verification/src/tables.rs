//! What is read back of a sample table that was written.

use vstd::prelude::*;

use crate::boxes::{
    be16, be32, be64, bytes16, bytes32, bytes64, found, CO64, CTTS, STCO, STSC, STSS, STSZ, STTS,
    STZ2,
};
use crate::error::Invalid;
use crate::mp4::Sample;
use crate::roundtrip::{law_field_round_trip, lemma_time_round_trip};
use crate::samples::{
    chunk_offsets, chunk_run, covered, cts_at, dts_at, duration_at, fill_chunk, fill_chunks,
    is_run_table, lemma_dts_bound, lemma_run_value_skip, listed, marked, place_from, run_value,
    sample_end, sample_offsets, sample_sizes, stsz_sizes, sync_at, sync_fault, table_samples, timed,
    timing_fault, whole_numbers, whole_runs,
};

verus! {

// --- writing -------------------------------------------------------------

/// Each of `values` in four bytes, one after the other.
pub open spec fn words(values: Seq<u32>) -> Seq<u8>
    decreases values.len(),
{
    if values.len() == 0 {
        Seq::empty()
    } else {
        words(values.drop_last()) + bytes32(values.last())
    }
}

/// Each of `values` in eight bytes, one after the other.
pub open spec fn longs(values: Seq<u64>) -> Seq<u8>
    decreases values.len(),
{
    if values.len() == 0 {
        Seq::empty()
    } else {
        longs(values.drop_last()) + bytes64(values.last())
    }
}

/// Each of `values` in two bytes, one after the other.
pub open spec fn halves(values: Seq<u16>) -> Seq<u8>
    decreases values.len(),
{
    if values.len() == 0 {
        Seq::empty()
    } else {
        halves(values.drop_last()) + bytes16(values.last())
    }
}

/// The two numbers of each of `pairs`, one after the other.
pub open spec fn pair_words(pairs: Seq<(u32, u32)>) -> Seq<u8>
    decreases pairs.len(),
{
    if pairs.len() == 0 {
        Seq::empty()
    } else {
        pair_words(pairs.drop_last()) + bytes32(pairs.last().0) + bytes32(pairs.last().1)
    }
}

/// The three numbers of each of `triples`, one after the other.
pub open spec fn triple_words(triples: Seq<(u32, u32, u32)>) -> Seq<u8>
    decreases triples.len(),
{
    if triples.len() == 0 {
        Seq::empty()
    } else {
        triple_words(triples.drop_last()) + bytes32(triples.last().0) + bytes32(triples.last().1)
            + bytes32(triples.last().2)
    }
}

proof fn lemma_be32_in(head: Seq<u8>, part: Seq<u8>, at: int, v: u32)
    requires
        0 <= at,
        at + 4 <= part.len(),
        part.subrange(at, at + 4) == bytes32(v),
    ensures
        be32(head + part, head.len() + at) == v,
{
    let s = head + part;
    assert(s.subrange(head.len() + at, head.len() + at + 4) =~= part.subrange(at, at + 4));
    law_field_round_trip(s, head.len() + at, v);
}

proof fn lemma_word(values: Seq<u32>, i: int)
    requires
        0 <= i < values.len(),
    ensures
        words(values).len() == 4 * values.len(),
        words(values).subrange(4 * i, 4 * i + 4) == bytes32(values[i]),
    decreases values.len(),
{
    let rest = values.drop_last();
    lemma_words_len(values);
    lemma_words_len(rest);
    if i < rest.len() {
        lemma_word(rest, i);
        assert(words(values).subrange(4 * i, 4 * i + 4) =~= words(rest).subrange(4 * i, 4 * i + 4));
    } else {
        assert(words(values).subrange(4 * i, 4 * i + 4) =~= bytes32(values[i]));
    }
}

proof fn lemma_words_len(values: Seq<u32>)
    ensures
        words(values).len() == 4 * values.len(),
    decreases values.len(),
{
    if values.len() > 0 {
        lemma_words_len(values.drop_last());
    }
}

proof fn lemma_long(values: Seq<u64>, i: int)
    requires
        0 <= i < values.len(),
    ensures
        longs(values).subrange(8 * i, 8 * i + 8) == bytes64(values[i]),
    decreases values.len(),
{
    let rest = values.drop_last();
    lemma_longs_len(values);
    lemma_longs_len(rest);
    if i < rest.len() {
        lemma_long(rest, i);
        assert(longs(values).subrange(8 * i, 8 * i + 8) =~= longs(rest).subrange(8 * i, 8 * i + 8));
    } else {
        assert(longs(values).subrange(8 * i, 8 * i + 8) =~= bytes64(values[i]));
    }
}

proof fn lemma_longs_len(values: Seq<u64>)
    ensures
        longs(values).len() == 8 * values.len(),
    decreases values.len(),
{
    if values.len() > 0 {
        lemma_longs_len(values.drop_last());
    }
}

proof fn lemma_half(values: Seq<u16>, i: int)
    requires
        0 <= i < values.len(),
    ensures
        halves(values).subrange(2 * i, 2 * i + 2) == bytes16(values[i]),
    decreases values.len(),
{
    let rest = values.drop_last();
    lemma_halves_len(values);
    lemma_halves_len(rest);
    if i < rest.len() {
        lemma_half(rest, i);
        assert(halves(values).subrange(2 * i, 2 * i + 2) =~= halves(rest).subrange(
            2 * i,
            2 * i + 2,
        ));
    } else {
        assert(halves(values).subrange(2 * i, 2 * i + 2) =~= bytes16(values[i]));
    }
}

proof fn lemma_halves_len(values: Seq<u16>)
    ensures
        halves(values).len() == 2 * values.len(),
    decreases values.len(),
{
    if values.len() > 0 {
        lemma_halves_len(values.drop_last());
    }
}

proof fn lemma_pair(pairs: Seq<(u32, u32)>, i: int)
    requires
        0 <= i < pairs.len(),
    ensures
        pair_words(pairs).subrange(8 * i, 8 * i + 4) == bytes32(pairs[i].0),
        pair_words(pairs).subrange(8 * i + 4, 8 * i + 8) == bytes32(pairs[i].1),
    decreases pairs.len(),
{
    let rest = pairs.drop_last();
    let all = pair_words(pairs);
    lemma_pairs_len(pairs);
    lemma_pairs_len(rest);
    if i < rest.len() {
        lemma_pair(rest, i);
        let old = pair_words(rest);
        assert(all.subrange(8 * i, 8 * i + 4) =~= old.subrange(8 * i, 8 * i + 4));
        assert(all.subrange(8 * i + 4, 8 * i + 8) =~= old.subrange(8 * i + 4, 8 * i + 8));
    } else {
        assert(all.subrange(8 * i, 8 * i + 4) =~= bytes32(pairs[i].0));
        assert(all.subrange(8 * i + 4, 8 * i + 8) =~= bytes32(pairs[i].1));
    }
}

proof fn lemma_pairs_len(pairs: Seq<(u32, u32)>)
    ensures
        pair_words(pairs).len() == 8 * pairs.len(),
    decreases pairs.len(),
{
    if pairs.len() > 0 {
        lemma_pairs_len(pairs.drop_last());
    }
}

proof fn lemma_triple(triples: Seq<(u32, u32, u32)>, i: int)
    requires
        0 <= i < triples.len(),
    ensures
        triple_words(triples).subrange(12 * i, 12 * i + 4) == bytes32(triples[i].0),
        triple_words(triples).subrange(12 * i + 4, 12 * i + 8) == bytes32(triples[i].1),
    decreases triples.len(),
{
    let rest = triples.drop_last();
    let all = triple_words(triples);
    lemma_triples_len(triples);
    lemma_triples_len(rest);
    if i < rest.len() {
        lemma_triple(rest, i);
        let old = triple_words(rest);
        assert(all.subrange(12 * i, 12 * i + 4) =~= old.subrange(12 * i, 12 * i + 4));
        assert(all.subrange(12 * i + 4, 12 * i + 8) =~= old.subrange(12 * i + 4, 12 * i + 8));
    } else {
        assert(all.subrange(12 * i, 12 * i + 4) =~= bytes32(triples[i].0));
        assert(all.subrange(12 * i + 4, 12 * i + 8) =~= bytes32(triples[i].1));
    }
}

proof fn lemma_triples_len(triples: Seq<(u32, u32, u32)>)
    ensures
        triple_words(triples).len() == 12 * triples.len(),
    decreases triples.len(),
{
    if triples.len() > 0 {
        lemma_triples_len(triples.drop_last());
    }
}

// --- sizes ---------------------------------------------------------------

/// An `stsz` payload with a size for each sample.
pub open spec fn written_sizes(flags: u32, sizes: Seq<u32>) -> Seq<u8> {
    bytes32(flags) + bytes32(0) + bytes32(sizes.len() as u32) + words(sizes)
}

/// The sizes that were written into an `stsz` box are the sizes that are read.
pub proof fn law_sizes_read_back(stbl: Seq<u8>, flags: u32, sizes: Seq<u32>)
    requires
        sizes.len() <= u32::MAX,
        found(stbl, STSZ) == Some(written_sizes(flags, sizes)),
    ensures
        sample_sizes(stbl) == Ok::<Seq<u32>, Invalid>(sizes),
{
    let b = written_sizes(flags, sizes);
    let head = bytes32(flags) + bytes32(0) + bytes32(sizes.len() as u32);
    lemma_words_len(sizes);
    assert(b.subrange(4, 8) =~= bytes32(0));
    assert(b.subrange(8, 12) =~= bytes32(sizes.len() as u32));
    law_field_round_trip(b, 4, 0);
    law_field_round_trip(b, 8, sizes.len() as u32);
    assert forall|i: int| 0 <= i < sizes.len() implies #[trigger] be32(b, 12 + 4 * i) == sizes[i] by {
        lemma_word(sizes, i);
        lemma_be32_in(head, words(sizes), 4 * i, sizes[i]);
    }
    assert(stsz_sizes(b)->Ok_0 =~= sizes);
}

/// One size for all samples stands for that many samples of that size.
pub proof fn law_uniform_size_read_back(
    stbl: Seq<u8>,
    flags: u32,
    size: u32,
    count: u32,
    rest: Seq<u8>,
)
    requires
        size != 0,
        found(stbl, STSZ) == Some(bytes32(flags) + bytes32(size) + bytes32(count) + rest),
    ensures
        sample_sizes(stbl) matches Ok(sizes) && sizes.len() == count && forall|i: int|
            0 <= i < count ==> #[trigger] sizes[i] == size,
{
    let b = bytes32(flags) + bytes32(size) + bytes32(count) + rest;
    assert(b.subrange(4, 8) =~= bytes32(size));
    assert(b.subrange(8, 12) =~= bytes32(count));
    law_field_round_trip(b, 4, size);
    law_field_round_trip(b, 8, count);
}

/// The head of an `stz2` payload with fields of `field` bits.
pub open spec fn packed_head(flags: u32, field: u8, count: u32) -> Seq<u8> {
    bytes32(flags) + seq![0u8, 0, 0, field] + bytes32(count)
}

proof fn lemma_packed_head(flags: u32, field: u8, count: u32, rest: Seq<u8>)
    ensures
        ({
            let b = packed_head(flags, field, count) + rest;
            b.len() == 12 + rest.len() && b[7] == field && be32(b, 8) == count
        }),
{
    let b = packed_head(flags, field, count) + rest;
    assert(b.subrange(8, 12) =~= bytes32(count));
    law_field_round_trip(b, 8, count);
}

/// Sizes that were packed into bytes are read back.
pub proof fn law_byte_sizes_read_back(stbl: Seq<u8>, flags: u32, sizes: Seq<u8>)
    requires
        sizes.len() <= u32::MAX,
        found(stbl, STSZ) is None,
        found(stbl, STZ2) == Some(packed_head(flags, 8, sizes.len() as u32) + sizes),
    ensures
        sample_sizes(stbl) matches Ok(read) && read.len() == sizes.len() && forall|i: int|
            0 <= i < sizes.len() ==> #[trigger] read[i] == sizes[i],
{
    let head = packed_head(flags, 8, sizes.len() as u32);
    lemma_packed_head(flags, 8, sizes.len() as u32, sizes);
    assert forall|i: int| 0 <= i < sizes.len() implies (head + sizes)[12 + i] == #[trigger] sizes[i]
        by {}
}

/// Sizes that were packed into 16 bits each are read back.
pub proof fn law_half_sizes_read_back(stbl: Seq<u8>, flags: u32, sizes: Seq<u16>)
    requires
        sizes.len() <= u32::MAX,
        found(stbl, STSZ) is None,
        found(stbl, STZ2) == Some(packed_head(flags, 16, sizes.len() as u32) + halves(sizes)),
    ensures
        sample_sizes(stbl) matches Ok(read) && read.len() == sizes.len() && forall|i: int|
            0 <= i < sizes.len() ==> #[trigger] read[i] == sizes[i],
{
    let head = packed_head(flags, 16, sizes.len() as u32);
    let b = head + halves(sizes);
    lemma_halves_len(sizes);
    lemma_packed_head(flags, 16, sizes.len() as u32, halves(sizes));
    assert forall|i: int| 0 <= i < sizes.len() implies be16(b, 12 + 2 * i) == #[trigger] sizes[i] by {
        lemma_half(sizes, i);
        let part = halves(sizes).subrange(2 * i, 2 * i + 2);
        assert(b[12 + 2 * i] == part[0] && b[13 + 2 * i] == part[1]);
    }
}

/// Sizes that were packed into 4 bits each, the first into the upper half of a byte, are
/// read back.
pub proof fn law_nibble_sizes_read_back(
    stbl: Seq<u8>,
    flags: u32,
    count: u32,
    packed: Seq<u8>,
    i: int,
)
    requires
        found(stbl, STSZ) is None,
        found(stbl, STZ2) == Some(packed_head(flags, 4, count) + packed),
        packed.len() == (count + 1) / 2,
        0 <= i < count,
    ensures
        sample_sizes(stbl) matches Ok(read) && read.len() == count && {
            let byte = packed[i / 2];
            &&& i % 2 == 0 ==> read[i] * 16 <= byte < read[i] * 16 + 16
            &&& i % 2 == 1 ==> read[i] < 16 && (byte - read[i]) % 16 == 0
        },
{
    let b = packed_head(flags, 4, count) + packed;
    lemma_packed_head(flags, 4, count, packed);
    assert(b[12 + i / 2] == packed[i / 2]);
}

// --- chunks --------------------------------------------------------------

/// Chunk offsets of 32 bits are read back, where there are none of 64 bits.
pub proof fn law_chunk_offsets_read_back(stbl: Seq<u8>, flags: u32, offsets: Seq<u32>)
    requires
        offsets.len() <= u32::MAX,
        found(stbl, CO64) is None,
        found(stbl, STCO) == Some(
            bytes32(flags) + bytes32(offsets.len() as u32) + words(offsets),
        ),
    ensures
        chunk_offsets(stbl) matches Ok(read) && read.len() == offsets.len() && forall|i: int|
            0 <= i < offsets.len() ==> #[trigger] read[i] == offsets[i],
{
    let head = bytes32(flags) + bytes32(offsets.len() as u32);
    let b = head + words(offsets);
    lemma_words_len(offsets);
    assert(b.subrange(4, 8) =~= bytes32(offsets.len() as u32));
    law_field_round_trip(b, 4, offsets.len() as u32);
    assert forall|i: int| 0 <= i < offsets.len() implies be32(b, 8 + 4 * i)
        == #[trigger] offsets[i] by {
        lemma_word(offsets, i);
        lemma_be32_in(head, words(offsets), 4 * i, offsets[i]);
    }
}

/// Chunk offsets of 64 bits are read back.
pub proof fn law_large_chunk_offsets_read_back(stbl: Seq<u8>, flags: u32, offsets: Seq<u64>)
    requires
        offsets.len() <= u32::MAX,
        found(stbl, CO64) == Some(
            bytes32(flags) + bytes32(offsets.len() as u32) + longs(offsets),
        ),
    ensures
        chunk_offsets(stbl) == Ok::<Seq<u64>, Invalid>(offsets),
{
    let head = bytes32(flags) + bytes32(offsets.len() as u32);
    let b = head + longs(offsets);
    lemma_longs_len(offsets);
    assert(b.subrange(4, 8) =~= bytes32(offsets.len() as u32));
    law_field_round_trip(b, 4, offsets.len() as u32);
    assert forall|i: int| 0 <= i < offsets.len() implies be64(b, 8 + 8 * i)
        == #[trigger] offsets[i] by {
        lemma_long(offsets, i);
        assert(b.subrange(8 + 8 * i, 8 + 8 * i + 8) =~= longs(offsets).subrange(
            8 * i,
            8 * i + 8,
        ));
        lemma_time_round_trip(b, 8 + 8 * i, offsets[i]);
    }
    assert(chunk_offsets(stbl)->Ok_0 =~= offsets);
}

/// A table of runs, written out: each value as many times as its run is long.
pub open spec fn expanded(runs: Seq<(u32, u32)>) -> Seq<u32>
    decreases runs.len(),
{
    if runs.len() == 0 {
        Seq::empty()
    } else {
        expanded(runs.drop_last()) + Seq::new(runs.last().0 as nat, |i: int| runs.last().1)
    }
}

proof fn lemma_expanded_step(runs: Seq<(u32, u32)>, e: int)
    requires
        0 <= e < runs.len(),
    ensures
        expanded(runs.take(e + 1)) == expanded(runs.take(e)) + Seq::new(
            runs[e].0 as nat,
            |i: int| runs[e].1,
        ),
{
    assert(runs.take(e + 1).drop_last() =~= runs.take(e));
    assert(expanded(runs.take(e + 1)) =~= expanded(runs.take(e)) + Seq::new(
        runs[e].0 as nat,
        |i: int| runs[e].1,
    ));
}

proof fn lemma_expanded_prefix(runs: Seq<(u32, u32)>, e: int)
    requires
        0 <= e <= runs.len(),
    ensures
        expanded(runs.take(e)).len() <= expanded(runs).len(),
        forall|i: int|
            0 <= i < expanded(runs.take(e)).len() ==> #[trigger] expanded(runs.take(e))[i]
                == expanded(runs)[i],
    decreases runs.len() - e,
{
    if e == runs.len() {
        assert(runs.take(e) =~= runs);
    } else {
        lemma_expanded_step(runs, e);
        lemma_expanded_prefix(runs, e + 1);
        assert forall|i: int| 0 <= i < expanded(runs.take(e)).len() implies #[trigger] expanded(
            runs.take(e),
        )[i] == expanded(runs)[i] by {
            assert(expanded(runs.take(e + 1))[i] == expanded(runs.take(e))[i]);
        }
    }
}

/// The sum of `values`.
pub open spec fn sum(values: Seq<u32>) -> nat
    decreases values.len(),
{
    if values.len() == 0 {
        0
    } else {
        sum(values.drop_last()) + values.last() as nat
    }
}

proof fn lemma_sum_head(values: Seq<u32>)
    requires
        values.len() > 0,
    ensures
        sum(values) == values[0] + sum(values.skip(1)),
    decreases values.len(),
{
    let rest = values.drop_last();
    if rest.len() > 0 {
        lemma_sum_head(rest);
        assert(values.skip(1).drop_last() =~= rest.skip(1));
    } else {
        assert(values.skip(1) =~= Seq::empty());
        assert(sum(rest) == 0);
        assert(sum(values.skip(1)) == 0);
    }
}

proof fn lemma_sum_take(values: Seq<u32>, from: int, to: int)
    requires
        0 <= from <= to <= values.len(),
    ensures
        sum(values.take(from)) <= sum(values.take(to)),
        from < to ==> sum(values.take(from)) + values[from] <= sum(values.take(to)),
    decreases to - from,
{
    if from < to {
        assert(values.take(from + 1).drop_last() =~= values.take(from));
        lemma_sum_take(values, from + 1, to);
    }
}

/// `offset`, or the largest 64-bit number where it does not fit.
pub open spec fn clamped(offset: int) -> u64 {
    if offset > u64::MAX {
        u64::MAX
    } else {
        offset as u64
    }
}

proof fn lemma_fill_chunk(placed: Seq<u64>, sizes: Seq<u32>, offset: u64, room: nat)
    requires
        placed.len() <= sizes.len(),
    ensures
        ({
            let now = fill_chunk(placed, sizes, offset, room);
            let p = placed.len() as int;
            &&& now.len() == if p + room < sizes.len() {
                (p + room) as nat
            } else {
                sizes.len()
            }
            &&& forall|i: int| 0 <= i < p ==> #[trigger] now[i] == placed[i]
            &&& forall|i: int|
                p <= i < now.len() ==> #[trigger] now[i] == clamped(
                    offset + sum(sizes.subrange(p, i)),
                )
        }),
    decreases room,
{
    let now = fill_chunk(placed, sizes, offset, room);
    let p = placed.len() as int;
    if room == 0 || placed.len() >= sizes.len() {
    } else {
        let next = placed.push(offset);
        let end = sample_end(offset, sizes[p]);
        lemma_fill_chunk(next, sizes, end, (room - 1) as nat);
        assert forall|i: int| p <= i < now.len() implies #[trigger] now[i] == clamped(
            offset + sum(sizes.subrange(p, i)),
        ) by {
            if i == p {
                assert(sizes.subrange(p, i) =~= Seq::empty());
                assert(sum(sizes.subrange(p, i)) == 0);
                assert(now[i] == next[i]);
            } else {
                lemma_sum_head(sizes.subrange(p, i));
                assert(sizes.subrange(p, i).skip(1) =~= sizes.subrange(p + 1, i));
            }
        }
    }
}

/// Whether `placed` holds the samples of the first `c` chunks, where chunk `d` starts at
/// `offsets[d]` and holds `counts[d]` samples: each sample lies behind the samples that
/// come before it in its chunk.
pub open spec fn laid(
    placed: Seq<u64>,
    sizes: Seq<u32>,
    offsets: Seq<u64>,
    counts: Seq<u32>,
    c: int,
) -> bool {
    &&& placed.len() == if sum(counts.take(c)) < sizes.len() {
        sum(counts.take(c))
    } else {
        sizes.len()
    }
    &&& forall|d: int, i: int|
        0 <= d < c && sum(counts.take(d)) <= i < sum(counts.take(d)) + counts[d] && i < sizes.len()
            ==> #[trigger] placed[i] == clamped(
            #[trigger] offsets[d] + sum(sizes.subrange(sum(counts.take(d)) as int, i)),
        )
}

proof fn lemma_chunk_laid(
    placed: Seq<u64>,
    sizes: Seq<u32>,
    offsets: Seq<u64>,
    counts: Seq<u32>,
    c: int,
)
    requires
        0 <= c < counts.len(),
        laid(placed, sizes, offsets, counts, c),
    ensures
        laid(
            fill_chunk(placed, sizes, offsets[c], counts[c] as nat),
            sizes,
            offsets,
            counts,
            c + 1,
        ),
{
    let now = fill_chunk(placed, sizes, offsets[c], counts[c] as nat);
    lemma_fill_chunk(placed, sizes, offsets[c], counts[c] as nat);
    assert(counts.take(c + 1).drop_last() =~= counts.take(c));
    assert forall|d: int, i: int|
        0 <= d < c + 1 && sum(counts.take(d)) <= i < sum(counts.take(d)) + counts[d] && i
            < sizes.len() implies #[trigger] now[i] == clamped(
        #[trigger] offsets[d] + sum(sizes.subrange(sum(counts.take(d)) as int, i)),
    ) by {
        lemma_sum_take(counts, d, c);
        if d < c {
            assert(now[i] == placed[i]);
        }
    }
}

proof fn lemma_chunks_laid(
    placed: Seq<u64>,
    sizes: Seq<u32>,
    offsets: Seq<u64>,
    counts: Seq<u32>,
    chunk: int,
    next: int,
    per_chunk: u32,
)
    requires
        1 <= chunk <= next <= counts.len() + 1,
        counts.len() == offsets.len(),
        forall|d: int| chunk - 1 <= d < next - 1 ==> #[trigger] counts[d] == per_chunk,
        laid(placed, sizes, offsets, counts, chunk - 1),
    ensures
        laid(
            fill_chunks(placed, sizes, offsets, chunk, next, per_chunk as nat),
            sizes,
            offsets,
            counts,
            next - 1,
        ),
    decreases next - chunk,
{
    if chunk < next {
        assert(counts[chunk - 1] == per_chunk);
        lemma_chunk_laid(placed, sizes, offsets, counts, chunk - 1);
        lemma_chunks_laid(
            fill_chunk(placed, sizes, offsets[chunk - 1], per_chunk as nat),
            sizes,
            offsets,
            counts,
            chunk + 1,
            next,
            per_chunk,
        );
    }
}

proof fn lemma_all_laid(
    placed: Seq<u64>,
    sizes: Seq<u32>,
    offsets: Seq<u64>,
    counts: Seq<u32>,
    c: int,
)
    requires
        0 <= c <= counts.len(),
        laid(placed, sizes, offsets, counts, c),
        placed.len() >= sizes.len(),
    ensures
        laid(placed, sizes, offsets, counts, counts.len() as int),
{
    lemma_sum_take(counts, c, counts.len() as int);
    assert forall|d: int, i: int|
        0 <= d < counts.len() && sum(counts.take(d)) <= i < sum(counts.take(d)) + counts[d] && i
            < sizes.len() implies #[trigger] placed[i] == clamped(
        #[trigger] offsets[d] + sum(sizes.subrange(sum(counts.take(d)) as int, i)),
    ) by {
        if d >= c {
            lemma_sum_take(counts, c, d);
        }
    }
}

/// How many samples each chunk holds, where `skipped` chunks that hold none come before those
/// of `runs`.
pub open spec fn counts(skipped: nat, runs: Seq<(u32, u32)>) -> Seq<u32> {
    Seq::new(skipped, |i: int| 0u32) + expanded(runs)
}

/// The entries of an `stsc` payload: for each run of chunks the number of its first chunk,
/// counted from 1, how many samples each of its chunks holds, and a sample description. The
/// first run starts behind `skipped` chunks.
pub open spec fn chunk_entries(
    skipped: nat,
    runs: Seq<(u32, u32)>,
    descriptions: Seq<u32>,
) -> Seq<(u32, u32, u32)> {
    Seq::new(
        runs.len(),
        |e: int|
            ((skipped + expanded(runs.take(e)).len() + 1) as u32, runs[e].1, descriptions[e]),
    )
}

/// An `stsc` payload. `runs` holds how many chunks there are with how many samples each.
pub open spec fn written_chunks(
    flags: u32,
    skipped: nat,
    runs: Seq<(u32, u32)>,
    descriptions: Seq<u32>,
) -> Seq<u8> {
    bytes32(flags) + bytes32(runs.len() as u32) + triple_words(
        chunk_entries(skipped, runs, descriptions),
    )
}

proof fn lemma_written_chunks(
    flags: u32,
    skipped: nat,
    runs: Seq<(u32, u32)>,
    descriptions: Seq<u32>,
    e: int,
)
    requires
        runs.len() <= u32::MAX,
        0 <= e < runs.len(),
    ensures
        ({
            let b = written_chunks(flags, skipped, runs, descriptions);
            &&& b.len() == 8 + 12 * runs.len()
            &&& be32(b, 4) == runs.len()
            &&& be32(b, 8 + 12 * e) == (skipped + expanded(runs.take(e)).len() + 1) as u32
            &&& be32(b, 12 + 12 * e) == runs[e].1
        }),
{
    let entries = chunk_entries(skipped, runs, descriptions);
    let head = bytes32(flags) + bytes32(runs.len() as u32);
    let b = written_chunks(flags, skipped, runs, descriptions);
    lemma_triples_len(entries);
    assert(b.subrange(4, 8) =~= bytes32(runs.len() as u32));
    law_field_round_trip(b, 4, runs.len() as u32);
    lemma_triple(entries, e);
    lemma_be32_in(head, triple_words(entries), 12 * e, entries[e].0);
    assert(triple_words(entries).subrange(12 * e + 4, 12 * e + 4 + 4)
        == triple_words(entries).subrange(12 * e + 4, 12 * e + 8));
    lemma_be32_in(head, triple_words(entries), 12 * e + 4, entries[e].1);
}

#[verifier::rlimit(40)]
proof fn lemma_placed_from(
    flags: u32,
    skipped: nat,
    runs: Seq<(u32, u32)>,
    descriptions: Seq<u32>,
    entry: int,
    sizes: Seq<u32>,
    offsets: Seq<u64>,
    placed: Seq<u64>,
)
    requires
        0 <= entry <= runs.len() <= u32::MAX,
        offsets.len() <= u32::MAX,
        forall|e: int| 0 <= e < runs.len() ==> (#[trigger] runs[e]).0 > 0,
        skipped + expanded(runs).len() == offsets.len(),
        laid(
            placed,
            sizes,
            offsets,
            counts(skipped, runs),
            (skipped + expanded(runs.take(entry)).len()) as int,
        ),
    ensures
        place_from(
            written_chunks(flags, skipped, runs, descriptions),
            entry,
            sizes,
            offsets,
            placed,
        ) matches Ok(now) && laid(
            now,
            sizes,
            offsets,
            counts(skipped, runs),
            offsets.len() as int,
        ),
    decreases runs.len() - entry,
{
    let stsc = written_chunks(flags, skipped, runs, descriptions);
    let all = counts(skipped, runs);
    if entry == runs.len() {
        assert(runs.take(entry) =~= runs);
        if runs.len() == 0 {
            lemma_triples_len(chunk_entries(skipped, runs, descriptions));
            assert(stsc.subrange(4, 8) =~= bytes32(runs.len() as u32));
            law_field_round_trip(stsc, 4, runs.len() as u32);
        } else {
            lemma_written_chunks(flags, skipped, runs, descriptions, 0);
        }
    } else {
        let from = skipped + expanded(runs.take(entry)).len() as int;
        let to = skipped + expanded(runs.take(entry + 1)).len() as int;
        lemma_written_chunks(flags, skipped, runs, descriptions, entry);
        lemma_expanded_step(runs, entry);
        lemma_expanded_prefix(runs, entry + 1);
        assert(to == from + runs[entry].0);
        assert forall|d: int| from <= d < to implies #[trigger] all[d] == runs[entry].1 by {
            assert(expanded(runs.take(entry + 1))[d - skipped] == runs[entry].1);
        }
        if entry + 1 < runs.len() {
            lemma_written_chunks(flags, skipped, runs, descriptions, entry + 1);
            lemma_expanded_step(runs, entry + 1);
            lemma_expanded_prefix(runs, entry + 2);
            assert(runs[entry + 1].0 > 0);
        } else {
            assert(runs.take(entry + 1) =~= runs);
        }
        let now = fill_chunks(placed, sizes, offsets, from + 1, to + 1, runs[entry].1 as nat);
        lemma_chunks_laid(placed, sizes, offsets, all, from + 1, to + 1, runs[entry].1);
        assert(chunk_run(stsc, entry, offsets.len()) is Ok);
        assert(chunk_run(stsc, entry, offsets.len())->Ok_0.next == to + 1);
        if now.len() >= sizes.len() {
            lemma_all_laid(now, sizes, offsets, all, to);
        } else {
            lemma_placed_from(flags, skipped, runs, descriptions, entry + 1, sizes, offsets, now);
        }
    }
}

proof fn lemma_nothing_in_skipped(skipped: nat, runs: Seq<(u32, u32)>, i: int)
    requires
        0 <= i <= skipped,
    ensures
        sum(counts(skipped, runs).take(i)) == 0,
    decreases i,
{
    let some = counts(skipped, runs).take(i);
    if i > 0 {
        lemma_nothing_in_skipped(skipped, runs, i - 1);
        assert(some.drop_last() =~= counts(skipped, runs).take(i - 1));
    }
}

/// Where the chunks of a table have room for every sample, the samples lie in them in
/// order: the first chunk that is not skipped holds the first samples, each chunk goes on
/// where the one before it ends, and a sample lies behind those that come before it in its
/// chunk.
pub proof fn law_samples_fill_their_chunks(
    stbl: Seq<u8>,
    sizes: Seq<u32>,
    offsets: Seq<u64>,
    flags: u32,
    skipped: nat,
    runs: Seq<(u32, u32)>,
    descriptions: Seq<u32>,
)
    requires
        runs.len() <= u32::MAX,
        offsets.len() <= u32::MAX,
        chunk_offsets(stbl) == Ok::<Seq<u64>, Invalid>(offsets),
        found(stbl, STSC) == Some(written_chunks(flags, skipped, runs, descriptions)),
        forall|e: int| 0 <= e < runs.len() ==> (#[trigger] runs[e]).0 > 0,
        skipped + expanded(runs).len() == offsets.len(),
    ensures
        sum(counts(skipped, runs)) >= sizes.len() ==> (sample_offsets(stbl, sizes) matches Ok(
            placed,
        ) && placed.len() == sizes.len() && laid(
            placed,
            sizes,
            offsets,
            counts(skipped, runs),
            offsets.len() as int,
        )),
        sum(counts(skipped, runs)) < sizes.len() ==> sample_offsets(stbl, sizes) == Err::<
            Seq<u64>,
            Invalid,
        >(Invalid::InconsistentSampleTable),
{
    let all = counts(skipped, runs);
    let none = Seq::<u64>::empty();
    lemma_triples_len(chunk_entries(skipped, runs, descriptions));
    assert(runs.take(0) =~= Seq::empty());
    assert(expanded(runs.take(0)) =~= Seq::empty());
    lemma_nothing_in_skipped(skipped, runs, skipped as int);
    assert(laid(none, sizes, offsets, all, skipped as int)) by {
        assert forall|d: int, i: int|
            0 <= d < skipped && sum(all.take(d)) <= i < sum(all.take(d)) + all[d] && i
                < sizes.len() implies #[trigger] none[i] == clamped(
            #[trigger] offsets[d] + sum(sizes.subrange(sum(all.take(d)) as int, i)),
        ) by {
            assert(all[d] == 0);
        }
    }
    lemma_placed_from(flags, skipped, runs, descriptions, 0, sizes, offsets, none);
    assert(all.take(all.len() as int) =~= all);
}

/// Chunks are numbered from 1 and runs of chunks come in order: a first run that starts at
/// chunk 0, or that does not start before the second, is malformed.
pub proof fn law_malformed_chunk_runs_are_refused(
    stbl: Seq<u8>,
    sizes: Seq<u32>,
    offsets: Seq<u64>,
    flags: u32,
    entries: Seq<(u32, u32, u32)>,
)
    requires
        0 < entries.len() <= u32::MAX,
        offsets.len() <= u32::MAX,
        chunk_offsets(stbl) == Ok::<Seq<u64>, Invalid>(offsets),
        found(stbl, STSC) == Some(
            bytes32(flags) + bytes32(entries.len() as u32) + triple_words(entries),
        ),
        entries[0].0 == 0 || (entries.len() > 1 && entries[1].0 <= entries[0].0) || (entries.len()
            == 1 && offsets.len() < entries[0].0),
    ensures
        sample_offsets(stbl, sizes) == Err::<Seq<u64>, Invalid>(Invalid::MalformedStsc),
{
    let head = bytes32(flags) + bytes32(entries.len() as u32);
    let b = head + triple_words(entries);
    lemma_triples_len(entries);
    assert(b.subrange(4, 8) =~= bytes32(entries.len() as u32));
    law_field_round_trip(b, 4, entries.len() as u32);
    lemma_triple(entries, 0);
    lemma_be32_in(head, triple_words(entries), 0, entries[0].0);
    if entries.len() > 1 {
        lemma_triple(entries, 1);
        lemma_be32_in(head, triple_words(entries), 12, entries[1].0);
    }
    assert(chunk_run(b, 0, offsets.len()) == Err::<crate::samples::ChunkRun, Invalid>(
        Invalid::MalformedStsc,
    ));
}

/// Packed sizes of another width than 4, 8 or 16 bits are not supported.
pub proof fn law_odd_widths_are_refused(
    stbl: Seq<u8>,
    flags: u32,
    field: u8,
    count: u32,
    packed: Seq<u8>,
)
    requires
        found(stbl, STSZ) is None,
        found(stbl, STZ2) == Some(packed_head(flags, field, count) + packed),
        field != 4 && field != 8 && field != 16,
        count > 0,
    ensures
        sample_sizes(stbl) == Err::<Seq<u32>, Invalid>(Invalid::UnsupportedStz2),
{
    lemma_packed_head(flags, field, count, packed);
}

// --- timing --------------------------------------------------------------

/// The payload of a table of runs, an `stts` or a `ctts`.
pub open spec fn written_runs(flags: u32, runs: Seq<(u32, u32)>) -> Seq<u8> {
    bytes32(flags) + bytes32(runs.len() as u32) + pair_words(runs)
}

proof fn lemma_written_runs(flags: u32, runs: Seq<(u32, u32)>)
    requires
        runs.len() <= u32::MAX,
    ensures
        ({
            let b = written_runs(flags, runs);
            &&& b.len() == 8 + 8 * runs.len()
            &&& be32(b, 4) == runs.len()
            &&& is_run_table(b)
            &&& forall|e: int|
                0 <= e < runs.len() ==> #[trigger] be32(b, 8 + 8 * e) == runs[e].0 && be32(
                    b,
                    12 + 8 * e,
                ) == runs[e].1
        }),
{
    let head = bytes32(flags) + bytes32(runs.len() as u32);
    let b = written_runs(flags, runs);
    lemma_pairs_len(runs);
    assert(b.subrange(4, 8) =~= bytes32(runs.len() as u32));
    law_field_round_trip(b, 4, runs.len() as u32);
    assert forall|e: int| 0 <= e < runs.len() implies #[trigger] be32(b, 8 + 8 * e) == runs[e].0
        && be32(b, 12 + 8 * e) == runs[e].1 by {
        lemma_pair(runs, e);
        lemma_be32_in(head, pair_words(runs), 8 * e, runs[e].0);
        assert(pair_words(runs).subrange(8 * e + 4, 8 * e + 4 + 4) == pair_words(runs).subrange(
            8 * e + 4,
            8 * e + 8,
        ));
        lemma_be32_in(head, pair_words(runs), 8 * e + 4, runs[e].1);
    }
}

proof fn lemma_runs_read(flags: u32, runs: Seq<(u32, u32)>, e: int)
    requires
        0 <= e <= runs.len() <= u32::MAX,
    ensures
        ({
            let b = written_runs(flags, runs);
            &&& covered(b, e) == expanded(runs.take(e)).len()
            &&& forall|i: int|
                0 <= i < expanded(runs.take(e)).len() ==> run_value(b, 0, i) == Some(
                    #[trigger] expanded(runs.take(e))[i],
                )
        }),
{
    lemma_written_runs(flags, runs);
    lemma_first_runs_read(written_runs(flags, runs), runs, e);
}

/// The first `e` runs are read out of any table that holds them.
proof fn lemma_first_runs_read(b: Seq<u8>, runs: Seq<(u32, u32)>, e: int)
    requires
        0 <= e <= runs.len(),
        e <= be32(b, 4),
        forall|k: int|
            0 <= k < e ==> #[trigger] be32(b, 8 + 8 * k) == runs[k].0 && be32(b, 12 + 8 * k)
                == runs[k].1,
    ensures
        covered(b, e) == expanded(runs.take(e)).len(),
        forall|i: int|
            0 <= i < expanded(runs.take(e)).len() ==> run_value(b, 0, i) == Some(
                #[trigger] expanded(runs.take(e))[i],
            ),
    decreases e,
{
    if e > 0 {
        let all = expanded(runs.take(e));
        lemma_first_runs_read(b, runs, e - 1);
        lemma_expanded_step(runs, e - 1);
        assert(be32(b, 8 + 8 * (e - 1)) == runs[e - 1].0);
        assert forall|i: int| 0 <= i < all.len() implies run_value(b, 0, i) == Some(
            #[trigger] all[i],
        ) by {
            if i < expanded(runs.take(e - 1)).len() {
                assert(all[i] == expanded(runs.take(e - 1))[i]);
            } else {
                lemma_run_value_skip(b, e - 1, i);
            }
        }
    } else {
        assert(runs.take(0) =~= Seq::empty());
        assert(expanded(runs.take(0)) =~= Seq::empty());
    }
}

/// A position behind every run of a written table has no value.
proof fn lemma_runs_end(flags: u32, runs: Seq<(u32, u32)>, i: int)
    requires
        runs.len() <= u32::MAX,
        i >= expanded(runs).len(),
    ensures
        run_value(written_runs(flags, runs), 0, i) is None,
{
    let n = runs.len() as int;
    lemma_written_runs(flags, runs);
    lemma_runs_read(flags, runs, n);
    assert(runs.take(n) =~= runs);
    lemma_run_value_skip(written_runs(flags, runs), n, i);
}

/// The duration of sample `i` where the durations were written as `values`: behind the
/// last one it goes on.
pub open spec fn lasting(values: Seq<u32>, i: int) -> u32 {
    if i < values.len() {
        values[i]
    } else if values.len() > 0 {
        values.last()
    } else {
        0
    }
}

/// The durations that were written as runs into an `stts` box are the durations that are
/// read, and the last one goes on behind its run.
pub proof fn law_durations_read_back(flags: u32, runs: Seq<(u32, u32)>, i: int)
    requires
        runs.len() <= u32::MAX,
        0 <= i,
    ensures
        duration_at(written_runs(flags, runs), i) == lasting(expanded(runs), i),
{
    let n = runs.len() as int;
    let b = written_runs(flags, runs);
    lemma_written_runs(flags, runs);
    lemma_runs_read(flags, runs, n);
    assert(runs.take(n) =~= runs);
    if i < expanded(runs).len() {
        assert(run_value(b, 0, i) == Some(expanded(runs)[i]));
    } else {
        lemma_runs_end(flags, runs, i);
        if expanded(runs).len() > 0 {
            let last = expanded(runs).len() - 1;
            assert(run_value(b, 0, last) == Some(expanded(runs)[last]));
        }
    }
}

/// Each sample starts when the one before it ends, and the first one starts at 0.
pub proof fn law_decode_times_follow_the_durations(stts: Seq<u8>, i: int)
    requires
        0 <= i,
    ensures
        dts_at(stts, 0) == 0,
        dts_at(stts, i + 1) == dts_at(stts, i) + duration_at(stts, i),
{
}

/// The composition offsets that were written as runs into a `ctts` box are read back, in
/// two's complement; samples behind the last run keep the offset that they had.
pub proof fn law_offsets_read_back(
    stbl: Seq<u8>,
    flags: u32,
    runs: Seq<(u32, u32)>,
    i: int,
    before: i32,
)
    requires
        runs.len() <= u32::MAX,
        found(stbl, CTTS) == Some(written_runs(flags, runs)),
        0 <= i,
    ensures
        i < expanded(runs).len() ==> -0x8000_0000 <= cts_at(stbl, i, before) && (cts_at(
            stbl,
            i,
            before,
        ) - expanded(runs)[i]) % 0x1_0000_0000 == 0,
        i >= expanded(runs).len() ==> cts_at(stbl, i, before) == before,
{
    let n = runs.len() as int;
    let b = written_runs(flags, runs);
    lemma_runs_read(flags, runs, n);
    assert(runs.take(n) =~= runs);
    if i < expanded(runs).len() {
        assert(run_value(b, 0, i) == Some(expanded(runs)[i]));
    } else {
        lemma_runs_end(flags, runs, i);
    }
}

// --- sync samples --------------------------------------------------------

/// An `stss` payload.
pub open spec fn written_numbers(flags: u32, numbers: Seq<u32>) -> Seq<u8> {
    bytes32(flags) + bytes32(numbers.len() as u32) + words(numbers)
}

/// The sync samples are those whose numbers, counted from 1, were written into the `stss`
/// box. Without one every sample is a sync sample.
pub proof fn law_sync_samples_read_back(stbl: Seq<u8>, flags: u32, numbers: Seq<u32>, i: int)
    requires
        numbers.len() <= u32::MAX,
        0 <= i < u32::MAX,
    ensures
        found(stbl, STSS) == Some(written_numbers(flags, numbers)) ==> sync_fault(stbl) is None && (
        sync_at(stbl, i) <==> numbers.contains((i + 1) as u32)),
        found(stbl, STSS) is None ==> sync_fault(stbl) is None && sync_at(stbl, i),
{
    let head = bytes32(flags) + bytes32(numbers.len() as u32);
    let b = written_numbers(flags, numbers);
    lemma_words_len(numbers);
    assert(b.subrange(4, 8) =~= bytes32(numbers.len() as u32));
    law_field_round_trip(b, 4, numbers.len() as u32);
    assert forall|e: int| 0 <= e < numbers.len() implies #[trigger] be32(b, 8 + 4 * e)
        == numbers[e] by {
        lemma_word(numbers, e);
        lemma_be32_in(head, words(numbers), 4 * e, numbers[e]);
    }
    if numbers.contains((i + 1) as u32) {
        let e = choose|e: int| 0 <= e < numbers.len() && numbers[e] == (i + 1) as u32;
        assert(be32(b, 8 + 4 * e) == i + 1);
        assert(listed(b, numbers.len() as int, i));
    } else if listed(b, numbers.len() as int, i) {
        let e = choose|e: int|
            0 <= e < numbers.len() && #[trigger] be32(b, 8 + 4 * e) == i + 1;
        assert(numbers[e] == (i + 1) as u32);
        assert(false);
    }
}

// --- the whole table -----------------------------------------------------

/// What is written into a sample table.
pub struct Written {
    /// The size of each sample.
    pub sizes: Seq<u32>,
    /// The file offset of each chunk.
    pub offsets: Seq<u64>,
    /// How many chunks hold no samples before the first that does.
    pub skipped: nat,
    /// How many chunks hold how many samples each.
    pub chunks: Seq<(u32, u32)>,
    /// The sample description of each run of chunks.
    pub descriptions: Seq<u32>,
    /// How many samples last how long.
    pub durations: Seq<(u32, u32)>,
    /// How many samples are shown how much later than they are decoded.
    pub shifts: Option<Seq<(u32, u32)>>,
    /// The numbers of the sync samples, counted from 1.
    pub sync: Option<Seq<u32>>,
}

/// Whether the boxes of `stbl` hold what `t` says.
pub open spec fn holds(stbl: Seq<u8>, t: Written) -> bool {
    &&& t.sizes.len() <= u32::MAX && t.offsets.len() <= u32::MAX && t.chunks.len() <= u32::MAX
    &&& t.durations.len() <= u32::MAX
    &&& found(stbl, STSZ) == Some(written_sizes(0, t.sizes))
    &&& found(stbl, CO64) == Some(
        bytes32(0) + bytes32(t.offsets.len() as u32) + longs(t.offsets),
    )
    &&& found(stbl, STSC) == Some(
        written_chunks(0, t.skipped, t.chunks, t.descriptions),
    )
    &&& forall|e: int| 0 <= e < t.chunks.len() ==> (#[trigger] t.chunks[e]).0 > 0
    &&& t.skipped + expanded(t.chunks).len() == t.offsets.len()
    &&& found(stbl, STTS) == Some(written_runs(0, t.durations))
    &&& match t.shifts {
        Some(runs) => runs.len() <= u32::MAX && found(stbl, CTTS) == Some(written_runs(0, runs)),
        None => found(stbl, CTTS) is None,
    }
    &&& match t.sync {
        Some(numbers) => numbers.len() <= u32::MAX && found(stbl, STSS) == Some(
            written_numbers(0, numbers),
        ),
        None => found(stbl, STSS) is None,
    }
}

/// Whether `offset` is what was written for sample `i`, in two's complement. Samples that
/// nothing was written for are shown when they are decoded.
pub open spec fn is_shift(shifts: Option<Seq<(u32, u32)>>, i: int, offset: i32) -> bool {
    match shifts {
        Some(runs) => if i < expanded(runs).len() {
            (offset - expanded(runs)[i]) % 0x1_0000_0000 == 0
        } else {
            offset == 0
        },
        None => offset == 0,
    }
}

/// Whether the number of sample `i` was listed, or nothing was.
pub open spec fn is_listed(sync: Option<Seq<u32>>, i: int) -> bool {
    match sync {
        Some(numbers) => numbers.contains((i + 1) as u32),
        None => true,
    }
}

proof fn lemma_decode_time(stts: Seq<u8>, durations: Seq<u32>, i: int)
    requires
        0 <= i,
        forall|j: int| 0 <= j ==> #[trigger] duration_at(stts, j) == lasting(durations, j),
    ensures
        dts_at(stts, i) == sum(Seq::new(i as nat, |j: int| lasting(durations, j))),
    decreases i,
{
    let all = Seq::new(i as nat, |j: int| lasting(durations, j));
    if i > 0 {
        lemma_decode_time(stts, durations, i - 1);
        assert(all.drop_last() =~= Seq::new((i - 1) as nat, |j: int| lasting(durations, j)));
        assert(duration_at(stts, i - 1) == lasting(durations, i - 1));
    } else {
        assert(sum(all) == 0);
    }
}

/// A written sample table is read back whenever its chunks have room for its samples: each
/// sample has the size that was written for it, its place in its chunk, its duration, the
/// durations before it as its decode time, its composition offset in two's complement, and
/// it is a sync sample exactly if its number was listed.
#[verifier::rlimit(40)]
pub proof fn law_table_reads_back(stbl: Seq<u8>, t: Written)
    requires
        holds(stbl, t),
        0 < t.sizes.len() <= sum(counts(t.skipped, t.chunks)),
    ensures
        table_samples(stbl) matches Ok(samples) && {
            let durations = expanded(t.durations);
            &&& samples.len() == t.sizes.len()
            &&& laid(
                Seq::new(samples.len(), |i: int| samples[i].offset),
                t.sizes,
                t.offsets,
                counts(t.skipped, t.chunks),
                t.offsets.len() as int,
            )
            &&& forall|i: int|
                0 <= i < samples.len() ==> {
                    let s = #[trigger] samples[i];
                    &&& s.size == t.sizes[i]
                    &&& s.duration == lasting(durations, i)
                    &&& s.dts == sum(Seq::new(i as nat, |j: int| lasting(durations, j)))
                    &&& is_shift(t.shifts, i, s.cts_offset)
                    &&& s.is_sync == is_listed(t.sync, i)
                }
        },
{
    let durations = expanded(t.durations);
    let stts = written_runs(0, t.durations);
    law_sizes_read_back(stbl, 0, t.sizes);
    law_large_chunk_offsets_read_back(stbl, 0, t.offsets);
    law_samples_fill_their_chunks(
        stbl,
        t.sizes,
        t.offsets,
        0,
        t.skipped,
        t.chunks,
        t.descriptions,
    );
    lemma_written_runs(0, t.durations);
    if let Some(runs) = t.shifts {
        lemma_written_runs(0, runs);
    }
    let numbers = match t.sync {
        Some(numbers) => numbers,
        None => Seq::empty(),
    };
    law_sync_samples_read_back(stbl, 0, numbers, 0);
    let placed = sample_offsets(stbl, t.sizes)->Ok_0;
    let samples = table_samples(stbl)->Ok_0;
    assert(table_samples(stbl) is Ok);
    assert(Seq::new(samples.len(), |i: int| samples[i].offset) =~= placed);
    assert forall|j: int| 0 <= j implies #[trigger] duration_at(stts, j) == lasting(
        durations,
        j,
    ) by {
        law_durations_read_back(0, t.durations, j);
    }
    assert forall|i: int| 0 <= i < samples.len() implies ({
        let s = #[trigger] samples[i];
        &&& s.duration == lasting(durations, i)
        &&& s.dts == sum(Seq::new(i as nat, |j: int| lasting(durations, j)))
        &&& is_shift(t.shifts, i, s.cts_offset)
        &&& s.is_sync == is_listed(t.sync, i)
    }) by {
        assert(duration_at(stts, i) == lasting(durations, i));
        lemma_decode_time(stts, durations, i);
        lemma_dts_bound(stts, i);
        law_sync_samples_read_back(stbl, 0, numbers, i);
        if let Some(runs) = t.shifts {
            law_offsets_read_back(stbl, 0, runs, i, 0);
        }
    }
}

/// A sample table that lacks one of its boxes is refused, and the error names the box.
/// Where no sample is declared, nothing else is asked for.
pub proof fn law_missing_boxes_are_named(stbl: Seq<u8>)
    ensures
        found(stbl, STSZ) is None && found(stbl, STZ2) is None ==> table_samples(stbl) == Err::<
            Seq<Sample>,
            Invalid,
        >(Invalid::NoStsz),
        sample_sizes(stbl) matches Ok(sizes) ==> {
            &&& sizes.len() == 0 ==> table_samples(stbl) == Ok::<Seq<Sample>, Invalid>(Seq::empty())
            &&& sizes.len() > 0 && found(stbl, CO64) is None && found(stbl, STCO) is None
                ==> table_samples(stbl) == Err::<Seq<Sample>, Invalid>(Invalid::NoStco)
            &&& sizes.len() > 0 && chunk_offsets(stbl) is Ok && found(stbl, STSC) is None
                ==> table_samples(stbl) == Err::<Seq<Sample>, Invalid>(Invalid::NoStsc)
            &&& sizes.len() > 0 && sample_offsets(stbl, sizes) is Ok && found(stbl, STTS) is None
                ==> table_samples(stbl) == Err::<Seq<Sample>, Invalid>(Invalid::NoStts)
        },
{
}

/// A table of sizes, of chunk offsets, of runs or of sync samples that was cut off anywhere
/// is refused as truncated.
#[verifier::rlimit(40)]
pub proof fn law_cut_off_tables_are_refused(stbl: Seq<u8>, t: Written, keep: int)
    requires
        t.sizes.len() <= u32::MAX,
        t.offsets.len() <= u32::MAX,
        t.durations.len() <= u32::MAX,
        0 <= keep,
    ensures
        keep < written_sizes(0, t.sizes).len() && found(stbl, STSZ) == Some(
            written_sizes(0, t.sizes).take(keep),
        ) ==> sample_sizes(stbl) == Err::<Seq<u32>, Invalid>(Invalid::TruncatedBox),
        ({
            let b = bytes32(0) + bytes32(t.offsets.len() as u32) + longs(t.offsets);
            keep < b.len() && found(stbl, CO64) == Some(b.take(keep))
        }) ==> chunk_offsets(stbl) == Err::<Seq<u64>, Invalid>(Invalid::TruncatedBox),
        keep < written_runs(0, t.durations).len() && found(stbl, STTS) == Some(
            written_runs(0, t.durations).take(keep),
        ) ==> timing_fault(stbl) == Some(Invalid::TruncatedBox),
        keep < written_numbers(0, t.sizes).len() && found(stbl, STSS) == Some(
            written_numbers(0, t.sizes).take(keep),
        ) ==> sync_fault(stbl) == Some(Invalid::TruncatedBox),
{
    let sizes = written_sizes(0, t.sizes);
    lemma_words_len(t.sizes);
    assert(sizes.subrange(4, 8) =~= bytes32(0));
    assert(sizes.subrange(8, 12) =~= bytes32(t.sizes.len() as u32));
    law_field_round_trip(sizes, 4, 0);
    law_field_round_trip(sizes, 8, t.sizes.len() as u32);
    if 12 <= keep < sizes.len() {
        assert(be32(sizes.take(keep), 4) == be32(sizes, 4));
        assert(be32(sizes.take(keep), 8) == be32(sizes, 8));
    }
    let offsets = bytes32(0) + bytes32(t.offsets.len() as u32) + longs(t.offsets);
    lemma_longs_len(t.offsets);
    assert(offsets.subrange(4, 8) =~= bytes32(t.offsets.len() as u32));
    law_field_round_trip(offsets, 4, t.offsets.len() as u32);
    if 8 <= keep < offsets.len() {
        assert(be32(offsets.take(keep), 4) == be32(offsets, 4));
    }
    let runs = written_runs(0, t.durations);
    lemma_written_runs(0, t.durations);
    if 8 <= keep < runs.len() {
        assert(be32(runs.take(keep), 4) == be32(runs, 4));
    }
    let numbers = written_numbers(0, t.sizes);
    assert(numbers.subrange(4, 8) =~= bytes32(t.sizes.len() as u32));
    law_field_round_trip(numbers, 4, t.sizes.len() as u32);
    if 8 <= keep < numbers.len() {
        assert(be32(numbers.take(keep), 4) == be32(numbers, 4));
    }
}

// --- applying tables to samples ------------------------------------------

/// Applying whole tables of times to a sample sets its decode time, its duration and, where
/// there is one, its composition offset. What it is made of, and whether it is a sync
/// sample, stay as they are.
pub proof fn law_times_are_applied(
    stbl: Seq<u8>,
    durations: Seq<(u32, u32)>,
    shifts: Seq<(u32, u32)>,
    s: Sample,
    i: int,
)
    requires
        durations.len() <= u32::MAX,
        shifts.len() <= u32::MAX,
        found(stbl, STTS) == Some(written_runs(0, durations)),
        found(stbl, CTTS) is None || found(stbl, CTTS) == Some(written_runs(0, shifts)),
        0 <= i <= u32::MAX,
    ensures
        ({
            let now = timed(stbl, s, i);
            let values = expanded(durations);
            &&& timing_fault(stbl) is None
            &&& now.duration == lasting(values, i)
            &&& now.dts == sum(Seq::new(i as nat, |j: int| lasting(values, j)))
            &&& found(stbl, CTTS) is Some && i < expanded(shifts).len() ==> (now.cts_offset
                - expanded(shifts)[i]) % 0x1_0000_0000 == 0
            &&& found(stbl, CTTS) is None || i >= expanded(shifts).len() ==> now.cts_offset
                == s.cts_offset
            &&& now.offset == s.offset && now.size == s.size && now.is_sync == s.is_sync
        }),
{
    let stts = written_runs(0, durations);
    lemma_written_runs(0, durations);
    lemma_written_runs(0, shifts);
    assert forall|j: int| 0 <= j implies #[trigger] duration_at(stts, j) == lasting(
        expanded(durations),
        j,
    ) by {
        law_durations_read_back(0, durations, j);
    }
    assert(duration_at(stts, i) == lasting(expanded(durations), i));
    lemma_decode_time(stts, expanded(durations), i);
    lemma_dts_bound(stts, i);
    if found(stbl, CTTS) is Some {
        law_offsets_read_back(stbl, 0, shifts, i, s.cts_offset);
        lemma_runs_read(0, shifts, shifts.len() as int);
        assert(shifts.take(shifts.len() as int) =~= shifts);
    }
}

/// A table of durations that is cut off behind `whole` runs is applied up to there: samples
/// of these runs are timed, the others stay as they are.
pub proof fn law_cut_off_times_are_applied_so_far(
    stbl: Seq<u8>,
    durations: Seq<(u32, u32)>,
    whole: int,
    keep: int,
    s: Sample,
    i: int,
)
    requires
        durations.len() <= u32::MAX,
        0 <= whole < durations.len(),
        8 + 8 * whole <= keep < 16 + 8 * whole,
        found(stbl, STTS) == Some(written_runs(0, durations).take(keep)),
        0 <= i <= u32::MAX,
    ensures
        ({
            let now = timed(stbl, s, i);
            let values = expanded(durations.take(whole));
            &&& timing_fault(stbl) == Some(Invalid::TruncatedBox)
            &&& i >= values.len() ==> now == s
            &&& i < values.len() ==> {
                &&& now.duration == values[i]
                &&& now.dts == sum(values.take(i))
                &&& now.cts_offset == s.cts_offset
                &&& now.offset == s.offset && now.size == s.size && now.is_sync == s.is_sync
            }
        }),
{
    let full = written_runs(0, durations);
    let stts = full.take(keep);
    lemma_written_runs(0, durations);
    assert(be32(stts, 4) == be32(full, 4));
    assert forall|k: int| 0 <= k < whole implies #[trigger] be32(stts, 8 + 8 * k) == durations[k].0
        && be32(stts, 12 + 8 * k) == durations[k].1 by {
        assert(be32(stts, 8 + 8 * k) == be32(full, 8 + 8 * k));
        assert(be32(stts, 12 + 8 * k) == be32(full, 12 + 8 * k));
    }
    lemma_first_runs_read(stts, durations, whole);
    assert(whole_runs(stts) == whole);
    let values = expanded(durations.take(whole));
    if i < values.len() {
        assert(run_value(stts, 0, i) == Some(values[i]));
        lemma_first_times(stts, values, i);
        lemma_dts_bound(stts, i);
    }
}

proof fn lemma_first_times(stts: Seq<u8>, values: Seq<u32>, i: int)
    requires
        0 <= i <= values.len(),
        forall|j: int| 0 <= j < values.len() ==> run_value(stts, 0, j) == Some(#[trigger] values[j]),
    ensures
        dts_at(stts, i) == sum(values.take(i)),
    decreases i,
{
    if i > 0 {
        lemma_first_times(stts, values, i - 1);
        assert(values.take(i).drop_last() =~= values.take(i - 1));
        assert(run_value(stts, 0, i - 1) == Some(values[i - 1]));
    }
}

/// A table of sync samples is applied as far as it goes, here for `whole` numbers: a sample
/// whose number is among them becomes a sync sample, and nothing else changes.
pub proof fn law_sync_marks_are_applied(
    stbl: Seq<u8>,
    numbers: Seq<u32>,
    whole: int,
    keep: int,
    s: Sample,
    i: int,
)
    requires
        numbers.len() <= u32::MAX,
        0 <= whole <= numbers.len(),
        8 + 4 * whole <= keep < 12 + 4 * whole,
        keep <= 8 + 4 * numbers.len(),
        0 <= i < u32::MAX,
    ensures
        found(stbl, STSS) == Some(written_numbers(0, numbers).take(keep)) ==> {
            let now = marked(stbl, s, i);
            &&& now.is_sync == (s.is_sync || numbers.take(whole).contains((i + 1) as u32))
            &&& now == (Sample { is_sync: now.is_sync, ..s })
            &&& sync_fault(stbl) is None <==> whole == numbers.len()
        },
        found(stbl, STSS) is None ==> marked(stbl, s, i) == (Sample { is_sync: true, ..s }),
{
    let head = bytes32(0) + bytes32(numbers.len() as u32);
    let full = written_numbers(0, numbers);
    let b = full.take(keep);
    lemma_words_len(numbers);
    assert(full.subrange(4, 8) =~= bytes32(numbers.len() as u32));
    law_field_round_trip(full, 4, numbers.len() as u32);
    assert(be32(b, 4) == be32(full, 4));
    assert(whole_numbers(b) == whole);
    assert forall|e: int| 0 <= e < whole implies #[trigger] be32(b, 8 + 4 * e) == numbers[e] by {
        lemma_word(numbers, e);
        lemma_be32_in(head, words(numbers), 4 * e, numbers[e]);
        assert(be32(b, 8 + 4 * e) == be32(full, 8 + 4 * e));
    }
    let some = numbers.take(whole);
    if some.contains((i + 1) as u32) {
        let e = choose|e: int| 0 <= e < some.len() && some[e] == (i + 1) as u32;
        assert(be32(b, 8 + 4 * e) == i + 1);
        assert(listed(b, whole, i));
    } else if listed(b, whole, i) {
        let e = choose|e: int| 0 <= e < whole && #[trigger] be32(b, 8 + 4 * e) == i + 1;
        assert(some[e] == (i + 1) as u32);
        assert(false);
    }
}

/// Chunk offsets of 32 bits and composition offsets that were cut off anywhere are refused
/// as truncated too, and so is an `stsc` box that ends before its first run does.
pub proof fn law_other_cut_off_tables_are_refused(
    stbl: Seq<u8>,
    offsets: Seq<u32>,
    shifts: Seq<(u32, u32)>,
    entries: Seq<(u32, u32, u32)>,
    sizes: Seq<u32>,
    keep: int,
)
    requires
        offsets.len() <= u32::MAX,
        shifts.len() <= u32::MAX,
        0 < entries.len() <= u32::MAX,
        0 <= keep,
    ensures
        ({
            let b = bytes32(0) + bytes32(offsets.len() as u32) + words(offsets);
            keep < b.len() && found(stbl, CO64) is None && found(stbl, STCO) == Some(b.take(keep))
        }) ==> chunk_offsets(stbl) == Err::<Seq<u64>, Invalid>(Invalid::TruncatedBox),
        ({
            let b = written_runs(0, shifts);
            &&& keep < b.len()
            &&& found(stbl, CTTS) == Some(b.take(keep))
            &&& found(stbl, STTS) is Some
            &&& is_run_table(found(stbl, STTS)->0)
        }) ==> timing_fault(stbl) == Some(Invalid::TruncatedBox),
        ({
            let b = bytes32(0) + bytes32(entries.len() as u32) + triple_words(entries);
            keep < 16 && chunk_offsets(stbl) is Ok && found(stbl, STSC) == Some(b.take(keep))
        }) ==> sample_offsets(stbl, sizes) == Err::<Seq<u64>, Invalid>(Invalid::TruncatedBox),
{
    let small = bytes32(0) + bytes32(offsets.len() as u32) + words(offsets);
    lemma_words_len(offsets);
    assert(small.subrange(4, 8) =~= bytes32(offsets.len() as u32));
    law_field_round_trip(small, 4, offsets.len() as u32);
    if 8 <= keep < small.len() {
        assert(be32(small.take(keep), 4) == be32(small, 4));
    }
    let runs = written_runs(0, shifts);
    lemma_written_runs(0, shifts);
    if 8 <= keep < runs.len() {
        assert(be32(runs.take(keep), 4) == be32(runs, 4));
    }
    let stsc = bytes32(0) + bytes32(entries.len() as u32) + triple_words(entries);
    lemma_triples_len(entries);
    assert(stsc.subrange(4, 8) =~= bytes32(entries.len() as u32));
    law_field_round_trip(stsc, 4, entries.len() as u32);
    if 8 <= keep < 16 {
        assert(be32(stsc.take(keep), 4) == be32(stsc, 4));
    }
}

} // verus!
