//! The access adapter chain: parse the segment's self-describing access
//! record stream, count the merge/split rows each adapter level must prove,
//! and emit the per-level traces.

use vstd::prelude::*;
use vstd::arithmetic::power2::pow2;
use vstd::arithmetic::power2::lemma_pow2_pos;
use vstd::arithmetic::power2::lemma_pow2_unfold;
use vstd::arithmetic::power2::lemma2_to64;

use crate::counting::spec_ilog2;

verus! {

/// Number of adapter levels: block sizes 2, 4, 8, 16 and 32.
pub const NUM_ADAPTERS: usize = 5;

/// Fixed header of one coalesced memory-access record.
#[derive(Clone, Copy)]
pub struct AccessRecordHeader {
    /// Size of the whole block; a power of two up to 32.
    pub block_size: u32,
    /// Lowest block size observed at this offset; a power of two dividing
    /// `block_size`.
    pub lowest_block_size: u32,
    pub address_space: u32,
    pub pointer: u32,
    pub timestamp: u32,
}

/// One coalesced memory-access record: header, the block's cell values, and
/// one timestamp per lowest-size sub-block.
pub struct AccessRecord {
    pub header: AccessRecordHeader,
    pub data: Vec<u32>,
    pub timestamps: Vec<u32>,
}

/// Walk state for one record during trace generation: where its words
/// start and how many rows each adapter level holds before it.
pub struct OffsetInfo {
    pub record_offset: u32,
    pub adapter_rows: [u32; 5],
}

/// The record stream was malformed: a record did not describe itself
/// consistently, or the buffer ended inside one.
#[derive(Debug, Clone, Copy, PartialEq, Eq)]
pub enum AccessRecordError {
    Malformed,
}

/// A positive power of two.
pub open spec fn spec_u32_pow2(x: u32) -> bool {
    exists|e: nat| e < 32 && x == pow2(e)
}

/// The record's sizes are powers of two within the supported range, the
/// pointer is aligned to the block, and the tails have their described
/// lengths.
pub open spec fn record_valid(r: AccessRecord) -> bool {
    &&& spec_u32_pow2(r.header.block_size)
    &&& spec_u32_pow2(r.header.lowest_block_size)
    &&& r.header.lowest_block_size <= r.header.block_size <= 32
    &&& r.header.pointer % r.header.block_size == 0
    &&& r.data@.len() == r.header.block_size
    &&& r.timestamps@.len() == r.header.block_size / r.header.lowest_block_size
}

/// Serialization of one record: the five header words, then the cell
/// values, then the sub-block timestamps.
pub open spec fn spec_serialize_record(r: AccessRecord) -> Seq<u32> {
    seq![
        r.header.block_size,
        r.header.lowest_block_size,
        r.header.address_space,
        r.header.pointer,
        r.header.timestamp,
    ] + r.data@ + r.timestamps@
}

/// Serialization of a record stream: concatenation, first record first.
pub open spec fn spec_serialize_records(rs: Seq<AccessRecord>) -> Seq<u32>
    decreases rs.len(),
{
    if rs.len() == 0 {
        Seq::empty()
    } else {
        spec_serialize_record(rs.first()) + spec_serialize_records(rs.drop_first())
    }
}

/// Whether the word stream is a well-formed sequence of self-describing
/// records from `pos` on: each record's length follows from its own first
/// two words.
pub open spec fn spec_stream_ok_from(buf: Seq<u32>, pos: int) -> bool
    decreases buf.len() - pos,
{
    if pos < 0 || pos > buf.len() {
        false
    } else if pos == buf.len() {
        true
    } else if buf.len() - pos < 5 {
        false
    } else {
        let bs = buf[pos];
        let lbs = buf[pos + 1];
        if !(1 <= lbs && spec_u32_pow2(bs) && spec_u32_pow2(lbs) && lbs <= bs <= 32 && buf[pos
            + 3] % bs == 0) {
            false
        } else if buf.len() - pos < 5 + bs + bs / lbs {
            false
        } else {
            spec_stream_ok_from(buf, pos + 5 + bs as int + (bs / lbs) as int)
        }
    }
}

/// Whether the whole word stream is a well-formed record stream.
pub open spec fn spec_stream_ok(buf: Seq<u32>) -> bool {
    spec_stream_ok_from(buf, 0)
}

/// Whether `x` is a positive power of two.
pub fn u32_is_pow2(x: u32) -> (b: bool)
    ensures
        b == spec_u32_pow2(x),
{
    let mut m: u32 = 1;
    let mut e: u32 = 0;
    proof {
        lemma2_to64();
    }
    while m < x && e < 31
        invariant
            e <= 31,
            m == pow2(e as nat),
            forall|e2: nat| e2 < e ==> pow2(e2) < x,
        decreases 31 - e,
    {
        proof {
            lemma_pow2_unfold((e + 1) as nat);
            crate::math::lemma_pow2_le(e as nat, 30);
            assert(pow2(30) == 0x40000000) by {
                lemma2_to64();
            }
            assert forall|e2: nat| e2 < e + 1 implies pow2(e2) < x by {
                if e2 < e {
                } else {
                    assert(pow2(e2) == m);
                }
            }
        }
        m = m * 2;
        e = e + 1;
    }
    proof {
        if m == x {
            assert(spec_u32_pow2(x));
        } else {
            if spec_u32_pow2(x) {
                let e0 = choose|e0: nat| e0 < 32 && x == pow2(e0);
                if e0 < e {
                    assert(pow2(e0) < x);
                } else if e0 > e {
                    vstd::arithmetic::power2::lemma_pow2_strictly_increases(e as nat, e0);
                    assert(e == 31 && m < x);
                    vstd::arithmetic::power2::lemma2_to64_rest();
                }
            }
        }
    }
    m == x
}

/// Parse an access record stream. Succeeds exactly on well-formed streams;
/// the parsed records serialize back to the input, word for word.
pub fn parse_records(buf: &Vec<u32>) -> (r: Result<Vec<AccessRecord>, AccessRecordError>)
    ensures
        (r is Ok) <==> spec_stream_ok(buf@),
        r matches Ok(rs) ==> {
            &&& forall|i: int| 0 <= i < rs@.len() ==> record_valid(#[trigger] rs@[i])
            &&& spec_serialize_records(rs@) == buf@
        },
{
    let mut records: Vec<AccessRecord> = Vec::new();
    let mut offset: usize = 0;
    while offset < buf.len()
        invariant
            offset <= buf@.len(),
            forall|i: int| 0 <= i < records@.len() ==> record_valid(#[trigger] records@[i]),
            spec_serialize_records(records@) == buf@.take(offset as int),
            spec_stream_ok(buf@) == spec_stream_ok_from(buf@, offset as int),
        decreases buf@.len() - offset,
    {
        if buf.len() - offset < 5 {
            return Result::Err(AccessRecordError::Malformed);
        }
        let bs = buf[offset];
        let lbs = buf[offset + 1];
        if !(1 <= lbs && u32_is_pow2(bs) && u32_is_pow2(lbs) && lbs <= bs && bs <= 32) {
            return Result::Err(AccessRecordError::Malformed);
        }
        proof {
            let eb = choose|eb: nat| eb < 32 && bs == pow2(eb);
            lemma_pow2_pos(eb);
            let el = choose|el: nat| el < 32 && lbs == pow2(el);
            lemma_pow2_pos(el);
        }
        if buf[offset + 3] % bs != 0 {
            return Result::Err(AccessRecordError::Malformed);
        }
        let nts = bs / lbs;
        let stride = 5 + (bs as usize) + (nts as usize);
        if buf.len() - offset < stride {
            return Result::Err(AccessRecordError::Malformed);
        }
        let header = AccessRecordHeader {
            block_size: bs,
            lowest_block_size: lbs,
            address_space: buf[offset + 2],
            pointer: buf[offset + 3],
            timestamp: buf[offset + 4],
        };
        let data = vstd::slice::slice_to_vec(
            vstd::slice::slice_subrange(buf.as_slice(), offset + 5, offset + 5 + (bs as usize)),
        );
        let timestamps = vstd::slice::slice_to_vec(
            vstd::slice::slice_subrange(
                buf.as_slice(),
                offset + 5 + (bs as usize),
                offset + stride,
            ),
        );
        let record = AccessRecord { header, data, timestamps };
        proof {
            assert(record_valid(record));
            assert(spec_stream_ok_from(buf@, offset as int) == spec_stream_ok_from(
                buf@,
                (offset + stride) as int,
            ));
            assert(spec_serialize_record(record) =~= buf@.subrange(
                offset as int,
                (offset + stride) as int,
            ));
        }
        let ghost before = records@;
        records.push(record);
        proof {
            lemma_serialize_push(before, record);
            assert(buf@.take(offset as int) + spec_serialize_record(record) =~= buf@.take(
                (offset + stride) as int,
            ));
        }
        offset = offset + stride;
    }
    proof {
        assert(buf@.take(offset as int) =~= buf@);
        assert(spec_stream_ok_from(buf@, offset as int));
    }
    Result::Ok(records)
}

/// Serializing one more record appends its words.
proof fn lemma_serialize_push(rs: Seq<AccessRecord>, r: AccessRecord)
    ensures
        spec_serialize_records(rs.push(r)) == spec_serialize_records(rs)
            + spec_serialize_record(r),
    decreases rs.len(),
{
    if rs.len() == 0 {
        assert(rs.push(r).drop_first() =~= rs);
        assert(rs.push(r).first() == r);
        assert(spec_serialize_records(rs.push(r).drop_first()) == Seq::<u32>::empty());
        assert(spec_serialize_records(rs.push(r)) == spec_serialize_record(r) + Seq::<
            u32,
        >::empty());
        assert(spec_serialize_record(r) + Seq::<u32>::empty() =~= spec_serialize_record(r));
        assert(spec_serialize_records(rs) + spec_serialize_record(r) =~= spec_serialize_record(r));
    } else {
        assert(rs.push(r).drop_first() =~= rs.drop_first().push(r));
        assert(rs.push(r).first() == rs.first());
        lemma_serialize_push(rs.drop_first(), r);
        assert(spec_serialize_records(rs.push(r)) =~= spec_serialize_records(rs)
            + spec_serialize_record(r));
    }
}

/// Rows one record contributes to adapter level `logn` (block size
/// `2^(logn + 1)`): one per block of that size it spans, for every level
/// strictly between its lowest block size and its own size.
pub open spec fn spec_record_rows(r: AccessRecord, logn: nat) -> nat {
    let bs_log = spec_ilog2(r.header.block_size as nat);
    let lbs_log = spec_ilog2(r.header.lowest_block_size as nat);
    if lbs_log <= logn < bs_log {
        (r.header.block_size as nat) / pow2((logn + 1) as nat)
    } else {
        0
    }
}

/// Rows a record stream contributes to adapter level `logn`.
pub open spec fn spec_rows(rs: Seq<AccessRecord>, logn: nat) -> nat
    decreases rs.len(),
{
    if rs.len() == 0 {
        0
    } else {
        spec_rows(rs.drop_last(), logn) + spec_record_rows(rs.last(), logn)
    }
}

/// Memory cells covered by a record, counted once per adapter level the
/// record spans.
pub open spec fn spec_cells_covered(rs: Seq<AccessRecord>) -> nat
    decreases rs.len(),
{
    if rs.len() == 0 {
        0
    } else {
        (spec_cells_covered(rs.drop_last()) + (rs.last().header.block_size as nat) * (spec_ilog2(
            rs.last().header.block_size as nat,
        ) - spec_ilog2(rs.last().header.lowest_block_size as nat))) as nat
    }
}

/// No cell accounting is lost or duplicated across adapter levels: summing
/// each level's row count weighted by that level's block size gives exactly
/// the cells covered by records that span more than one level.
pub proof fn lemma_adapter_row_accounting(rs: Seq<AccessRecord>)
    requires
        forall|i: int| 0 <= i < rs.len() ==> record_valid(#[trigger] rs[i]),
    ensures
        spec_rows(rs, 0) * 2 + spec_rows(rs, 1) * 4 + spec_rows(rs, 2) * 8 + spec_rows(rs, 3) * 16
            + spec_rows(rs, 4) * 32 == spec_cells_covered(rs),
    decreases rs.len(),
{
    if rs.len() > 0 {
        lemma_adapter_row_accounting(rs.drop_last());
        let r = rs.last();
        lemma_record_accounting(r);
    }
}

/// The per-record case of the accounting law.
proof fn lemma_record_accounting(r: AccessRecord)
    requires
        record_valid(r),
    ensures
        spec_record_rows(r, 0) * 2 + spec_record_rows(r, 1) * 4 + spec_record_rows(r, 2) * 8
            + spec_record_rows(r, 3) * 16 + spec_record_rows(r, 4) * 32 == (
        r.header.block_size as nat) * (spec_ilog2(r.header.block_size as nat) - spec_ilog2(
            r.header.lowest_block_size as nat,
        )),
{
    let bs = r.header.block_size as nat;
    let e = choose|e: nat| e < 32 && r.header.block_size == pow2(e);
    let e2 = choose|e2: nat| e2 < 32 && r.header.lowest_block_size == pow2(e2);
    lemma2_to64();
    lemma_pow2_exact(e);
    lemma_pow2_exact(e2);
    assert(e <= 5) by {
        if e > 5 {
            crate::math::lemma_pow2_le(6, e);
        }
    }
    assert(e2 <= e) by {
        if e2 > e {
            crate::math::lemma_pow2_le((e + 1) as nat, e2);
        }
    }
    assert(spec_ilog2(bs) == e);
    assert(spec_ilog2(r.header.lowest_block_size as nat) == e2);
    assert forall|logn: nat| logn < e implies spec_record_rows(r, logn) * pow2((logn + 1) as nat)
        == if e2 <= logn {
        bs
    } else {
        0nat
    } by {
        if e2 <= logn {
            vstd::arithmetic::power2::lemma_pow2_subtracts((logn + 1) as nat, e);
            vstd::arithmetic::power2::lemma_pow2_adds((e - logn - 1) as nat, (logn + 1) as nat);
            lemma_pow2_pos((logn + 1) as nat);
            vstd::arithmetic::div_mod::lemma_fundamental_div_mod_converse(
                bs as int,
                pow2((logn + 1) as nat) as int,
                pow2((e - logn - 1) as nat) as int,
                0,
            );
            assert(bs / pow2((logn + 1) as nat) == pow2((e - logn - 1) as nat));
            vstd::arithmetic::power2::lemma_pow2_adds((e - logn - 1) as nat, (logn + 1) as nat);
        }
    }
    assert forall|logn: nat| e <= logn < 5 implies spec_record_rows(r, logn) == 0 by {}
    if e == 0 {
    } else if e == 1 {
    } else if e == 2 {
    } else if e == 3 {
    } else if e == 4 {
    } else {
        assert(e == 5);
    }
}

/// The floor logarithm of an exact power of two is its exponent.
proof fn lemma_pow2_exact(e: nat)
    ensures
        spec_ilog2(pow2(e)) == e,
    decreases e,
{
    if e == 0 {
        lemma2_to64();
    } else {
        lemma_pow2_exact((e - 1) as nat);
        lemma_pow2_unfold(e);
        lemma_pow2_pos((e - 1) as nat);
        vstd::arithmetic::div_mod::lemma_fundamental_div_mod_converse(
            pow2(e) as int,
            2,
            pow2((e - 1) as nat) as int,
            0,
        );
    }
}

/// The walk table for a record stream: for each record, the word offset
/// where it starts and how many rows each adapter level holds before it.
/// Row generators use it to place every record's rows independently.
pub fn record_offsets(records: &Vec<AccessRecord>) -> (offsets: Vec<OffsetInfo>)
    requires
        forall|i: int| 0 <= i < records@.len() ==> record_valid(#[trigger] records@[i]),
        records@.len() <= 0x100_0000,
    ensures
        offsets@.len() == records@.len(),
        forall|j: int|
            0 <= j < offsets@.len() ==> (#[trigger] offsets@[j]).record_offset
                == spec_serialize_records(records@.take(j)).len(),
        forall|j: int, k: int|
            0 <= j < offsets@.len() && 0 <= k < 5 ==> (#[trigger] offsets@[j].adapter_rows@[k])
                == spec_rows(records@.take(j), k as nat),
{
    let mut offsets: Vec<OffsetInfo> = Vec::new();
    let mut off: u32 = 0;
    let mut cnt: Vec<u32> = Vec::new();
    cnt.push(0);
    cnt.push(0);
    cnt.push(0);
    cnt.push(0);
    cnt.push(0);
    proof {
        assert(records@.take(0) =~= Seq::<AccessRecord>::empty());
    }
    let mut i: usize = 0;
    while i < records.len()
        invariant
            forall|q: int| 0 <= q < records@.len() ==> record_valid(#[trigger] records@[q]),
            records@.len() <= 0x100_0000,
            i <= records@.len(),
            cnt@.len() == 5,
            offsets@.len() == i,
            off == spec_serialize_records(records@.take(i as int)).len(),
            off <= 69 * i,
            forall|k: int| 0 <= k < 5 ==> cnt@[k] == spec_rows(records@.take(i as int), k as nat),
            forall|k: int| 0 <= k < 5 ==> cnt@[k] <= 16 * i,
            forall|j: int|
                0 <= j < offsets@.len() ==> (#[trigger] offsets@[j]).record_offset
                    == spec_serialize_records(records@.take(j)).len(),
            forall|j: int, k: int|
                0 <= j < offsets@.len() && 0 <= k < 5 ==> (#[trigger] offsets@[j].adapter_rows@[k])
                    == spec_rows(records@.take(j), k as nat),
        decreases records@.len() - i,
    {
        let entry = OffsetInfo {
            record_offset: off,
            adapter_rows: [cnt[0], cnt[1], cnt[2], cnt[3], cnt[4]],
        };
        proof {
            assert(entry.adapter_rows@ =~= cnt@);
        }
        offsets.push(entry);
        let r = &records[i];
        let bs = r.header.block_size;
        let lbs = r.header.lowest_block_size;
        proof {
            let eb = choose|eb: nat| eb < 32 && bs == pow2(eb);
            let el = choose|el: nat| el < 32 && lbs == pow2(el);
            lemma_pow2_exact(eb);
            lemma_pow2_exact(el);
            lemma2_to64();
            assert(eb < 31 && bs as usize == pow2(eb));
            assert(el < 31 && lbs as usize == pow2(el));
        }
        let bs_log = crate::math::exact_log2(bs as usize);
        let lbs_log = crate::math::exact_log2(lbs as usize);
        proof {
            lemma_pow2_exact(bs_log as nat);
            lemma_pow2_exact(lbs_log as nat);
            assert(spec_ilog2(bs as nat) == bs_log);
            assert(spec_ilog2(lbs as nat) == lbs_log);
            assert(bs_log <= 5) by {
                if bs_log > 5 {
                    crate::math::lemma_pow2_le(6, bs_log as nat);
                }
            }
            assert(lbs_log <= bs_log) by {
                if lbs_log > bs_log {
                    crate::math::lemma_pow2_le((bs_log + 1) as nat, lbs_log as nat);
                }
            }
            assert(records@.take(i + 1 as int).drop_last() =~= records@.take(i as int));
            assert(records@.take(i + 1 as int) =~= records@.take(i as int).push(
                records@[i as int],
            ));
            lemma_serialize_push(records@.take(i as int), records@[i as int]);
        }
        let nts = bs / lbs;
        proof {
            lemma_pow2_pos(lbs_log as nat);
            vstd::arithmetic::div_mod::lemma_div_nonincreasing(bs as int, lbs as int);
        }
        off = off + 5 + bs + nts;
        let mut logn = lbs_log;
        while logn < bs_log
            invariant
                record_valid(records@[i as int]),
                i < records@.len(),
                records@.len() <= 0x100_0000,
                bs == records@[i as int].header.block_size,
                bs as nat == pow2(bs_log as nat),
                spec_ilog2(bs as nat) == bs_log,
                spec_ilog2(records@[i as int].header.lowest_block_size as nat) == lbs_log,
                lbs_log <= logn <= bs_log <= 5,
                cnt@.len() == 5,
                forall|k: int|
                    0 <= k < 5 ==> cnt@[k] == spec_rows(records@.take(i as int), k as nat) + (
                    if lbs_log <= k < logn {
                        spec_record_rows(records@[i as int], k as nat)
                    } else {
                        0nat
                    }),
                forall|k: int|
                    0 <= k < 5 ==> cnt@[k] <= 16 * i + (if lbs_log <= k < logn {
                        16int
                    } else {
                        0int
                    }),
            decreases bs_log - logn,
        {
            proof {
                vstd::bits::lemma_u32_shr_is_div(bs, (1 + logn) as u32);
                assert(spec_record_rows(records@[i as int], logn as nat) == bs as nat / pow2(
                    (logn + 1) as nat,
                ));
                crate::math::lemma_pow2_le((logn + 1) as nat, 6);
                lemma_pow2_pos((logn + 1) as nat);
                crate::math::lemma_pow2_le(1, (logn + 1) as nat);
                assert(pow2(1) == 2) by {
                    lemma2_to64();
                }
                vstd::arithmetic::div_mod::lemma_div_is_ordered_by_denominator(
                    bs as int,
                    2,
                    pow2((logn + 1) as nat) as int,
                );
                vstd::arithmetic::div_mod::lemma_fundamental_div_mod(bs as int, 2);
                assert(bs as nat / pow2((logn + 1) as nat) <= 16);
            }
            let add = bs >> ((1 + logn) as u32);
            let cur = cnt[logn];
            cnt.set(logn, cur + add);
            logn = logn + 1;
        }
        proof {
            assert forall|k: int| 0 <= k < 5 implies cnt@[k] == spec_rows(
                records@.take(i + 1 as int),
                k as nat,
            ) by {
                assert(records@.take(i + 1 as int).last() == records@[i as int]);
                if !(lbs_log <= k < bs_log) {
                    assert(spec_record_rows(records@[i as int], k as nat) == 0);
                }
            }
        }
        i = i + 1;
    }
    offsets
}

/// Shared range-check collaborator: a counting table recording, per bit
/// width, how many "value fits in that many bits" assertions were made.
pub struct VariableRangeChecker {
    pub counts: Vec<u64>,
}

impl VariableRangeChecker {
    /// All-zero table for widths `0 ..= max_bits`.
    pub fn new(max_bits: usize) -> (r: VariableRangeChecker)
        requires
            max_bits <= 32,
        ensures
            r.counts@.len() == max_bits + 1,
            forall|i: int| 0 <= i < r.counts@.len() ==> r.counts@[i] == 0,
    {
        let mut counts: Vec<u64> = Vec::new();
        let mut i: usize = 0;
        while i <= max_bits
            invariant
                max_bits <= 32,
                i <= max_bits + 1,
                counts@.len() == i,
                forall|q: int| 0 <= q < i ==> counts@[q] == 0,
            decreases max_bits + 1 - i,
        {
            counts.push(0);
            i = i + 1;
        }
        VariableRangeChecker { counts }
    }

    /// Record one "`value < 2^bits`" assertion.
    pub fn add_count(&mut self, value: u32, bits: usize)
        requires
            bits < old(self).counts@.len(),
            value < pow2(bits as nat),
        ensures
            final (self).counts@ == old(self).counts@.update(
                bits as int,
                if old(self).counts@[bits as int] < u64::MAX {
                    (old(self).counts@[bits as int] + 1) as u64
                } else {
                    u64::MAX
                },
            ),
    {
        let c = self.counts[bits];
        if c < u64::MAX {
            self.counts.set(bits, c + 1);
        } else {
            self.counts.set(bits, c);
        }
    }
}

/// One merge/split row of adapter level `logn`: two blocks of size
/// `2^logn` combine into one of size `2^(logn + 1)`, with the merged
/// timestamp the maximum of the two sides.
pub struct AdapterRow {
    pub address_space: u32,
    pub pointer: u32,
    pub left_timestamp: u32,
    pub right_timestamp: u32,
    pub parent_timestamp: u32,
    pub values: Vec<u32>,
}

/// One adapter level's trace: its rows and the power-of-two height they
/// are padded to.
pub struct AdapterTrace {
    pub rows: Vec<AdapterRow>,
    pub padded_height: usize,
}

/// Count, for every adapter level, the rows a record stream contributes:
/// a record of size `bs` adds `bs >> (1 + logn)` rows to each level
/// strictly between its lowest block size and its own.
pub fn count_adapter_rows(records: &Vec<AccessRecord>) -> (rows: Vec<u64>)
    requires
        forall|i: int| 0 <= i < records@.len() ==> record_valid(#[trigger] records@[i]),
        records@.len() <= 0x100_0000_0000_0000,
    ensures
        rows@.len() == NUM_ADAPTERS,
        forall|k: int| 0 <= k < NUM_ADAPTERS ==> rows@[k] == spec_rows(records@, k as nat),
{
    let mut rows: Vec<u64> = Vec::new();
    rows.push(0);
    rows.push(0);
    rows.push(0);
    rows.push(0);
    rows.push(0);
    let mut i: usize = 0;
    while i < records.len()
        invariant
            forall|q: int| 0 <= q < records@.len() ==> record_valid(#[trigger] records@[q]),
            records@.len() <= 0x100_0000_0000_0000,
            i <= records@.len(),
            rows@.len() == 5,
            forall|k: int| 0 <= k < 5 ==> rows@[k] == spec_rows(records@.take(i as int), k as nat),
            forall|k: int| 0 <= k < 5 ==> rows@[k] <= 16 * i,
        decreases records@.len() - i,
    {
        let r = &records[i];
        let bs = r.header.block_size;
        let lbs = r.header.lowest_block_size;
        proof {
            let eb = choose|eb: nat| eb < 32 && bs == pow2(eb);
            let el = choose|el: nat| el < 32 && lbs == pow2(el);
            lemma_pow2_exact(eb);
            lemma_pow2_exact(el);
            lemma2_to64();
            assert(eb < 31 && bs as usize == pow2(eb));
            assert(el < 31 && lbs as usize == pow2(el));
        }
        let bs_log = crate::math::exact_log2(bs as usize);
        let lbs_log = crate::math::exact_log2(lbs as usize);
        proof {
            lemma_pow2_exact(bs_log as nat);
            lemma_pow2_exact(lbs_log as nat);
            assert(spec_ilog2(bs as nat) == bs_log);
            assert(spec_ilog2(lbs as nat) == lbs_log);
            assert(bs_log <= 5) by {
                if bs_log > 5 {
                    crate::math::lemma_pow2_le(6, bs_log as nat);
                }
            }
            assert(lbs_log <= bs_log) by {
                if lbs_log > bs_log {
                    crate::math::lemma_pow2_le((bs_log + 1) as nat, lbs_log as nat);
                }
            }
            assert(records@.take(i + 1 as int).drop_last() =~= records@.take(i as int));
        }
        let mut logn = lbs_log;
        while logn < bs_log
            invariant
                record_valid(records@[i as int]),
                i < records@.len(),
                records@.len() <= 0x100_0000_0000_0000,
                bs == records@[i as int].header.block_size,
                bs as nat == pow2(bs_log as nat),
                spec_ilog2(bs as nat) == bs_log,
                spec_ilog2(records@[i as int].header.lowest_block_size as nat) == lbs_log,
                lbs_log <= logn <= bs_log <= 5,
                rows@.len() == 5,
                forall|k: int|
                    0 <= k < 5 ==> rows@[k] == spec_rows(records@.take(i as int), k as nat) + (
                    if lbs_log <= k < logn {
                        spec_record_rows(records@[i as int], k as nat)
                    } else {
                        0nat
                    }),
                forall|k: int|
                    0 <= k < 5 ==> rows@[k] <= 16 * i + (if lbs_log <= k < logn {
                        16int
                    } else {
                        0int
                    }),
            decreases bs_log - logn,
        {
            proof {
                vstd::bits::lemma_u32_shr_is_div(bs, (1 + logn) as u32);
                assert(spec_record_rows(records@[i as int], logn as nat) == bs as nat / pow2(
                    (logn + 1) as nat,
                ));
                crate::math::lemma_pow2_le((logn + 1) as nat, 6);
                lemma_pow2_pos((logn + 1) as nat);
                crate::math::lemma_pow2_le(1, (logn + 1) as nat);
                assert(pow2(1) == 2) by {
                    lemma2_to64();
                }
                vstd::arithmetic::div_mod::lemma_div_is_ordered_by_denominator(
                    bs as int,
                    2,
                    pow2((logn + 1) as nat) as int,
                );
                vstd::arithmetic::div_mod::lemma_fundamental_div_mod(bs as int, 2);
                assert(bs as nat / pow2((logn + 1) as nat) <= 16);
            }
            let add = (bs >> ((1 + logn) as u32)) as u64;
            let cur = rows[logn];
            rows.set(logn, cur + add);
            logn = logn + 1;
        }
        proof {
            assert forall|k: int| 0 <= k < 5 implies rows@[k] == spec_rows(
                records@.take(i + 1 as int),
                k as nat,
            ) by {
                assert(records@.take(i + 1 as int).last() == records@[i as int]);
                assert(spec_rows(records@.take(i + 1 as int), k as nat) == spec_rows(
                    records@.take(i as int),
                    k as nat,
                ) + spec_record_rows(records@[i as int], k as nat));
                if !(lbs_log <= k < bs_log) {
                    assert(spec_record_rows(records@[i as int], k as nat) == 0);
                }
            }
        }
        i = i + 1;
    }
    proof {
        assert(records@.take(records@.len() as int) =~= records@);
    }
    rows
}

/// A power-of-two padded height for `n` rows: at least `n`, less than
/// twice it (with height one for a single row).
pub open spec fn is_padded_height(p: nat, n: nat) -> bool {
    &&& (exists|e: nat| e < 31 && p == pow2(e))
    &&& n <= p
    &&& (p == 1 || p < 2 * n)
}

/// The adapter chain: counts and emits, per level, the rows proving each
/// merge/split of the segment's access records, recording the timestamp
/// orderings with the shared range checker.
pub struct AccessAdapterInventoryHIP {
    pub max_access_adapter_n: usize,
    pub timestamp_max_bits: usize,
    pub range_checker: VariableRangeChecker,
}

impl AccessAdapterInventoryHIP {
    pub fn new(
        range_checker: VariableRangeChecker,
        max_access_adapter_n: usize,
        timestamp_max_bits: usize,
    ) -> (r: AccessAdapterInventoryHIP)
        ensures
            r.range_checker == range_checker,
            r.max_access_adapter_n == max_access_adapter_n,
            r.timestamp_max_bits == timestamp_max_bits,
    {
        AccessAdapterInventoryHIP { max_access_adapter_n, timestamp_max_bits, range_checker }
    }

    /// The largest timestamp in `ts[a .. b)`.
    fn max_timestamp(ts: &Vec<u32>, a: usize, b: usize) -> (r: u32)
        requires
            a < b <= ts@.len(),
        ensures
            exists|q: int| a <= q < b && ts@[q] == r,
            forall|q: int| a <= q < b ==> ts@[q] <= r,
    {
        let mut r = ts[a];
        let mut q = a + 1;
        while q < b
            invariant
                a < q <= b <= ts@.len(),
                exists|q2: int| a <= q2 < q && ts@[q2] == r,
                forall|q2: int| a <= q2 < q ==> ts@[q2] <= r,
            decreases b - q,
        {
            if ts[q] > r {
                r = ts[q];
            }
            q = q + 1;
        }
        r
    }

    /// Replay the counting walk and emit, for every adapter level, either
    /// no trace or the level's merge/split rows padded to a power of two.
    /// Each row carries the two sides' timestamps and their maximum as the
    /// merged timestamp; the differences are recorded with the range
    /// checker as "fits in `timestamp_max_bits` bits".
    pub fn generate_traces_from_records(&mut self, records: &Vec<AccessRecord>) -> (traces: Vec<
        Option<AdapterTrace>,
    >)
        requires
            forall|i: int| 0 <= i < records@.len() ==> record_valid(#[trigger] records@[i]),
            records@.len() <= 0x400_0000,
            forall|i: int, q: int|
                0 <= i < records@.len() && 0 <= q < records@[i].timestamps@.len()
                    ==> (#[trigger] records@[i].timestamps@[q]) < pow2(
                    old(self).timestamp_max_bits as nat,
                ),
            old(self).timestamp_max_bits < old(self).range_checker.counts@.len(),
            exists|e: nat| 1 <= e <= 5 && old(self).max_access_adapter_n == pow2(e),
        ensures
            final (self).max_access_adapter_n == old(self).max_access_adapter_n,
            final (self).timestamp_max_bits == old(self).timestamp_max_bits,
            final (self).range_checker.counts@.len() == old(self).range_checker.counts@.len(),
            traces@.len() == spec_ilog2(old(self).max_access_adapter_n as nat),
            forall|k: int|
                0 <= k < traces@.len() ==> ((#[trigger] traces@[k]) is Some <==> spec_rows(
                    records@,
                    k as nat,
                ) > 0),
            forall|k: int|
                0 <= k < traces@.len() ==> ((#[trigger] traces@[k]) matches Some(t) ==> {
                    &&& t.rows@.len() == spec_rows(records@, k as nat)
                    &&& is_padded_height(t.padded_height as nat, t.rows@.len())
                    &&& forall|w: int|
                        0 <= w < t.rows@.len() ==> (#[trigger] t.rows@[w]).parent_timestamp == (
                        if t.rows@[w].left_timestamp >= t.rows@[w].right_timestamp {
                            t.rows@[w].left_timestamp
                        } else {
                            t.rows@[w].right_timestamp
                        })
                }),
    {
        proof {
            let e0 = choose|e: nat| 1 <= e <= 5 && self.max_access_adapter_n == pow2(e);
            assert(e0 < 31 && self.max_access_adapter_n == pow2(e0));
            lemma_pow2_exact(e0);
        }
        let cnt_adapters = crate::math::exact_log2(self.max_access_adapter_n);
        proof {
            lemma_pow2_exact(cnt_adapters as nat);
            assert(cnt_adapters <= 5) by {
                if cnt_adapters > 5 {
                    crate::math::lemma_pow2_le(6, cnt_adapters as nat);
                    lemma2_to64();
                }
            }
        }
        let mut traces: Vec<Option<AdapterTrace>> = Vec::new();
        let mut k: usize = 0;
        while k < cnt_adapters
            invariant
                k <= cnt_adapters <= 5,
                self.max_access_adapter_n == old(self).max_access_adapter_n,
                self.timestamp_max_bits == old(self).timestamp_max_bits,
                self.range_checker.counts@.len() == old(self).range_checker.counts@.len(),
                cnt_adapters == spec_ilog2(old(self).max_access_adapter_n as nat),
                forall|i: int| 0 <= i < records@.len() ==> record_valid(#[trigger] records@[i]),
                records@.len() <= 0x400_0000,
                forall|i: int, q: int|
                    0 <= i < records@.len() && 0 <= q < records@[i].timestamps@.len()
                        ==> (#[trigger] records@[i].timestamps@[q]) < pow2(
                        self.timestamp_max_bits as nat,
                    ),
                self.timestamp_max_bits < self.range_checker.counts@.len(),
                traces@.len() == k,
                forall|k2: int|
                    0 <= k2 < k ==> ((#[trigger] traces@[k2]) is Some <==> spec_rows(
                        records@,
                        k2 as nat,
                    ) > 0),
                forall|k2: int|
                    0 <= k2 < k ==> ((#[trigger] traces@[k2]) matches Some(t) ==> {
                        &&& t.rows@.len() == spec_rows(records@, k2 as nat)
                        &&& is_padded_height(t.padded_height as nat, t.rows@.len())
                        &&& forall|w: int|
                            0 <= w < t.rows@.len() ==> (#[trigger] t.rows@[w]).parent_timestamp
                                == (if t.rows@[w].left_timestamp >= t.rows@[w].right_timestamp {
                                t.rows@[w].left_timestamp
                            } else {
                                t.rows@[w].right_timestamp
                            })
                    }),
            decreases cnt_adapters - k,
        {
            let rows_k = self.emit_level(records, k);
            if rows_k.len() == 0 {
                traces.push(Option::None);
            } else {
                proof {
                    lemma2_to64();
                    assert(0x4000_0000 == pow2(30));
                    assert(exists|e: nat| e < 31 && 0x4000_0000usize == pow2(e)) by {
                        assert(30nat < 31 && 0x4000_0000usize == pow2(30));
                    }
                }
                let (padded, _) = crate::math::ceil_pow2(rows_k.len(), 0x4000_0000);
                traces.push(Option::Some(AdapterTrace { rows: rows_k, padded_height: padded }));
            }
            k = k + 1;
        }
        traces
    }

    /// Emit the merge/split rows of one adapter level.
    fn emit_level(&mut self, records: &Vec<AccessRecord>, k: usize) -> (rows: Vec<AdapterRow>)
        requires
            forall|i: int| 0 <= i < records@.len() ==> record_valid(#[trigger] records@[i]),
            records@.len() <= 0x400_0000,
            k <= 5,
            forall|i: int, q: int|
                0 <= i < records@.len() && 0 <= q < records@[i].timestamps@.len()
                    ==> (#[trigger] records@[i].timestamps@[q]) < pow2(
                    old(self).timestamp_max_bits as nat,
                ),
            old(self).timestamp_max_bits < old(self).range_checker.counts@.len(),
        ensures
            final (self).max_access_adapter_n == old(self).max_access_adapter_n,
            final (self).timestamp_max_bits == old(self).timestamp_max_bits,
            final (self).range_checker.counts@.len() == old(self).range_checker.counts@.len(),
            rows@.len() == spec_rows(records@, k as nat),
            rows@.len() <= 16 * records@.len(),
            forall|w: int|
                0 <= w < rows@.len() ==> (#[trigger] rows@[w]).parent_timestamp == (if rows@[w].left_timestamp
                    >= rows@[w].right_timestamp {
                    rows@[w].left_timestamp
                } else {
                    rows@[w].right_timestamp
                }),
    {
        let mut rows: Vec<AdapterRow> = Vec::new();
        let mut i: usize = 0;
        while i < records.len()
            invariant
                forall|q: int| 0 <= q < records@.len() ==> record_valid(#[trigger] records@[q]),
                records@.len() <= 0x400_0000,
                k <= 5,
                i <= records@.len(),
                self.max_access_adapter_n == old(self).max_access_adapter_n,
                self.timestamp_max_bits == old(self).timestamp_max_bits,
                self.range_checker.counts@.len() == old(self).range_checker.counts@.len(),
                forall|i2: int, q: int|
                    0 <= i2 < records@.len() && 0 <= q < records@[i2].timestamps@.len()
                        ==> (#[trigger] records@[i2].timestamps@[q]) < pow2(
                        self.timestamp_max_bits as nat,
                    ),
                self.timestamp_max_bits < self.range_checker.counts@.len(),
                rows@.len() == spec_rows(records@.take(i as int), k as nat),
                rows@.len() <= 16 * i,
                forall|w: int|
                    0 <= w < rows@.len() ==> (#[trigger] rows@[w]).parent_timestamp == (if rows@[w].left_timestamp
                        >= rows@[w].right_timestamp {
                        rows@[w].left_timestamp
                    } else {
                        rows@[w].right_timestamp
                    }),
            decreases records@.len() - i,
        {
            let r = &records[i];
            let bs = r.header.block_size;
            let lbs = r.header.lowest_block_size;
            proof {
                let eb = choose|eb: nat| eb < 32 && bs == pow2(eb);
                let el = choose|el: nat| el < 32 && lbs == pow2(el);
                lemma_pow2_exact(eb);
                lemma_pow2_exact(el);
                lemma2_to64();
                assert(eb < 31 && bs as usize == pow2(eb));
                assert(el < 31 && lbs as usize == pow2(el));
            }
            let bs_log = crate::math::exact_log2(bs as usize);
            let lbs_log = crate::math::exact_log2(lbs as usize);
            proof {
                lemma_pow2_exact(bs_log as nat);
                lemma_pow2_exact(lbs_log as nat);
                assert(bs_log <= 5) by {
                    if bs_log > 5 {
                        crate::math::lemma_pow2_le(6, bs_log as nat);
                    }
                }
                assert(lbs_log <= bs_log) by {
                    if lbs_log > bs_log {
                        crate::math::lemma_pow2_le((bs_log + 1) as nat, lbs_log as nat);
                    }
                }
                assert(records@.take(i + 1 as int).drop_last() =~= records@.take(i as int));
                assert(records@.take(i + 1 as int).last() == records@[i as int]);
            }
            if lbs_log <= k && k < bs_log {
                let blk = crate::math::pow2_usize(k + 1);
                let nb = (bs as usize) / blk;
                let nts_blk = crate::math::pow2_usize(k + 1 - lbs_log);
                let half_n = nts_blk / 2;
                proof {
                    lemma_pow2_pos((k + 1) as nat);
                    lemma_pow2_unfold((k + 1 - lbs_log) as nat);
                    lemma_pow2_pos((k - lbs_log) as nat);
                    assert(half_n == pow2((k - lbs_log) as nat));
                    crate::math::lemma_pow2_le((k + 1 - lbs_log) as nat, 6);
                    assert(pow2(6) == 64) by {
                        lemma2_to64();
                    }
                    vstd::arithmetic::power2::lemma_pow2_subtracts((k + 1) as nat, bs_log as nat);
                    vstd::arithmetic::power2::lemma_pow2_adds(
                        (bs_log - k - 1) as nat,
                        (k + 1) as nat,
                    );
                    vstd::arithmetic::div_mod::lemma_fundamental_div_mod_converse(
                        bs as int,
                        blk as int,
                        pow2((bs_log - k - 1) as nat) as int,
                        0,
                    );
                    assert(nb == pow2((bs_log - k - 1) as nat));
                    assert(nb == spec_record_rows(records@[i as int], k as nat));
                    // sub-blocks of timestamps: bs / lbs lowest blocks split
                    // into nb groups of nts_blk
                    vstd::arithmetic::power2::lemma_pow2_subtracts(lbs_log as nat, bs_log as nat);
                    vstd::arithmetic::power2::lemma_pow2_adds(
                        (bs_log - lbs_log) as nat,
                        lbs_log as nat,
                    );
                    vstd::arithmetic::power2::lemma_pow2_adds(
                        (bs_log - k - 1) as nat,
                        (k + 1 - lbs_log) as nat,
                    );
                    lemma_pow2_pos(lbs_log as nat);
                    vstd::arithmetic::div_mod::lemma_fundamental_div_mod_converse(
                        (bs / lbs) as int,
                        1,
                        (bs / lbs) as int,
                        0,
                    );
                    vstd::arithmetic::div_mod::lemma_fundamental_div_mod_converse(
                        bs as int,
                        lbs as int,
                        pow2((bs_log - lbs_log) as nat) as int,
                        0,
                    );
                    assert((bs / lbs) as nat == pow2((bs_log - lbs_log) as nat));
                    assert(nb * nts_blk == pow2((bs_log - lbs_log) as nat)) by (nonlinear_arith)
                        requires
                            nb == pow2((bs_log - k - 1) as nat),
                            nts_blk == pow2((k + 1 - lbs_log) as nat),
                            pow2((bs_log - lbs_log) as nat) == pow2((bs_log - k - 1) as nat)
                                * pow2((k + 1 - lbs_log) as nat),
                    ;
                }
                let mut b: usize = 0;
                while b < nb
                    invariant
                        record_valid(records@[i as int]),
                        i < records@.len(),
                        b <= nb,
                        nb <= 16,
                        1 <= blk == pow2((k + 1) as nat),
                        blk <= 64,
                        2 <= nts_blk <= 64,
                        half_n * 2 == nts_blk,
                        bs == records@[i as int].header.block_size,
                        nb * blk == bs,
                        nb * nts_blk == records@[i as int].timestamps@.len(),
                        self.max_access_adapter_n == old(self).max_access_adapter_n,
                        self.timestamp_max_bits == old(self).timestamp_max_bits,
                        self.range_checker.counts@.len() == old(
                            self,
                        ).range_checker.counts@.len(),
                        forall|i2: int, q: int|
                            0 <= i2 < records@.len() && 0 <= q < records@[i2].timestamps@.len()
                                ==> (#[trigger] records@[i2].timestamps@[q]) < pow2(
                                self.timestamp_max_bits as nat,
                            ),
                        self.timestamp_max_bits < self.range_checker.counts@.len(),
                        spec_rows(records@.take(i as int), k as nat) <= 16 * i,
                        rows@.len() == spec_rows(records@.take(i as int), k as nat) + b,
                        rows@.len() <= 16 * i + 16,
                        forall|w: int|
                            0 <= w < rows@.len() ==> (#[trigger] rows@[w]).parent_timestamp == (
                            if rows@[w].left_timestamp >= rows@[w].right_timestamp {
                                rows@[w].left_timestamp
                            } else {
                                rows@[w].right_timestamp
                            }),
                    decreases nb - b,
                {
                    proof {
                        assert((b + 1) * blk <= nb * blk) by (nonlinear_arith)
                            requires b + 1 <= nb, blk >= 1;
                        assert((b + 1) * nts_blk <= nb * nts_blk) by (nonlinear_arith)
                            requires b + 1 <= nb, nts_blk >= 1;
                        assert(b * blk + blk == (b + 1) * blk) by (nonlinear_arith);
                        assert(b * nts_blk + nts_blk == (b + 1) * nts_blk) by (nonlinear_arith);
                        assert(b * nts_blk + nts_blk <= 1024) by (nonlinear_arith)
                            requires b < nb, nb <= 16, nts_blk <= 64;
                    }
                    proof {
                        assert(b * blk + blk <= records@[i as int].data@.len());
                    }
                    let values = vstd::slice::slice_to_vec(
                        vstd::slice::slice_subrange(records[i].data.as_slice(), b * blk, b * blk + blk),
                    );
                    let ts_base = b * nts_blk;
                    let left_ts = Self::max_timestamp(
                        &records[i].timestamps,
                        ts_base,
                        ts_base + half_n,
                    );
                    let right_ts = Self::max_timestamp(
                        &records[i].timestamps,
                        ts_base + half_n,
                        ts_base + nts_blk,
                    );
                    let parent_ts = if left_ts >= right_ts {
                        left_ts
                    } else {
                        right_ts
                    };
                    proof {
                        let q0 = choose|q0: int|
                            ts_base <= q0 < ts_base + half_n && records@[i as int].timestamps@[q0]
                                == left_ts;
                        assert(left_ts < pow2(self.timestamp_max_bits as nat));
                        let q1 = choose|q1: int|
                            ts_base + half_n <= q1 < ts_base + nts_blk && records@[i as int].timestamps@[q1]
                                == right_ts;
                        assert(right_ts < pow2(self.timestamp_max_bits as nat));
                    }
                    self.range_checker.add_count(parent_ts - left_ts, self.timestamp_max_bits);
                    self.range_checker.add_count(parent_ts - right_ts, self.timestamp_max_bits);
                    rows.push(
                        AdapterRow {
                            address_space: records[i].header.address_space,
                            pointer: records[i].header.pointer,
                            left_timestamp: left_ts,
                            right_timestamp: right_ts,
                            parent_timestamp: parent_ts,
                            values,
                        },
                    );
                    b = b + 1;
                }
                proof {
                    assert(spec_rows(records@.take(i + 1 as int), k as nat) == spec_rows(
                        records@.take(i as int),
                        k as nat,
                    ) + spec_record_rows(records@[i as int], k as nat));
                }
            } else {
                proof {
                    assert(spec_record_rows(records@[i as int], k as nat) == 0);
                    assert(spec_rows(records@.take(i + 1 as int), k as nat) == spec_rows(
                        records@.take(i as int),
                        k as nat,
                    ));
                }
            }
            i = i + 1;
        }
        proof {
            assert(records@.take(records@.len() as int) =~= records@);
        }
        rows
    }
}

} // verus!
