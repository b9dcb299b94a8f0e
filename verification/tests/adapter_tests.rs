use memtrace::access_adapters::count_adapter_rows;
use memtrace::access_adapters::record_offsets;
use memtrace::access_adapters::parse_records;
use memtrace::access_adapters::AccessAdapterInventoryHIP;
use memtrace::access_adapters::AccessRecord;
use memtrace::access_adapters::AccessRecordHeader;
use memtrace::access_adapters::VariableRangeChecker;
use memtrace::boundary::BoundaryChipHIP;
use memtrace::boundary::TIMESTAMPED_BLOCK_WIDTH;
use memtrace::equipartition::extract_touched_blocks;
use memtrace::phantom::PhantomChipHIP;
use memtrace::phantom::PHANTOM_RECORD_SIZE;
use memtrace::update::TouchedBlock;

fn record(block_size: u32, lowest: u32, ts_seed: u32) -> AccessRecord {
    let nts = (block_size / lowest) as usize;
    AccessRecord {
        header: AccessRecordHeader {
            block_size,
            lowest_block_size: lowest,
            address_space: 1,
            pointer: 0,
            timestamp: ts_seed,
        },
        data: (0..block_size).collect(),
        timestamps: (0..nts as u32).map(|q| ts_seed + q).collect(),
    }
}

fn serialize(records: &[AccessRecord]) -> Vec<u32> {
    let mut words = Vec::new();
    for r in records {
        words.push(r.header.block_size);
        words.push(r.header.lowest_block_size);
        words.push(r.header.address_space);
        words.push(r.header.pointer);
        words.push(r.header.timestamp);
        words.extend_from_slice(&r.data);
        words.extend_from_slice(&r.timestamps);
    }
    words
}

#[test]
fn parser_round_trips_a_stream() {
    let records = vec![record(8, 2, 10), record(32, 4, 50), record(2, 1, 90)];
    let words = serialize(&records);
    let parsed = parse_records(&words).unwrap();
    assert_eq!(parsed.len(), 3);
    for (a, b) in parsed.iter().zip(records.iter()) {
        assert_eq!(a.header.block_size, b.header.block_size);
        assert_eq!(a.header.lowest_block_size, b.header.lowest_block_size);
        assert_eq!(a.header.pointer, b.header.pointer);
        assert_eq!(a.data, b.data);
        assert_eq!(a.timestamps, b.timestamps);
    }
    assert_eq!(serialize(&parsed), words);
}

#[test]
fn parser_accepts_empty_stream() {
    assert!(parse_records(&vec![]).unwrap().is_empty());
}

#[test]
fn parser_rejects_truncated_record() {
    // A record claiming 8 cells but ending after the header.
    let words = vec![8, 2, 1, 0, 7];
    assert!(parse_records(&words).is_err());
}

#[test]
fn parser_rejects_bad_sizes() {
    // Block size 6 is no power of two.
    let words = vec![6, 2, 1, 0, 7, 0, 0, 0, 0, 0, 0, 0, 0, 0, 0];
    assert!(parse_records(&words).is_err());
    // Lowest block size above the block size.
    let r = record(2, 1, 3);
    let mut words = serialize(&[r]);
    words[1] = 4;
    assert!(parse_records(&words).is_err());
    // Misaligned pointer.
    let r = record(8, 2, 3);
    let mut words = serialize(&[r]);
    words[3] = 3;
    assert!(parse_records(&words).is_err());
}

#[test]
fn adapter_row_counting_covers_every_cell_once_per_level() {
    // A 32-cell record resolved down to 4-cell blocks spans levels 2, 3
    // and 4; an 8-cell record down to 1-cell blocks spans 0, 1 and 2.
    let records = vec![record(32, 4, 1), record(8, 1, 2)];
    let rows = count_adapter_rows(&records);
    assert_eq!(rows, vec![4, 2, 5, 2, 1]);
    // Weighted by each level's block size, the rows cover each record's
    // cells once per level it spans.
    let weighted: u64 = (0..5).map(|k| rows[k] * (1u64 << (k + 1))).sum();
    assert_eq!(weighted, 32 * 3 + 8 * 3);
}

#[test]
fn adapter_traces_pad_to_powers_of_two() {
    let records = vec![record(32, 4, 1), record(8, 1, 2)];
    let checker = VariableRangeChecker::new(29);
    let mut inv = AccessAdapterInventoryHIP::new(checker, 32, 29);
    let traces = inv.generate_traces_from_records(&records);
    assert_eq!(traces.len(), 5);
    // level 0: only the 8-cell record contributes (4 rows).
    let t0 = traces[0].as_ref().unwrap();
    assert_eq!(t0.rows.len(), 4);
    assert_eq!(t0.padded_height, 4);
    // level 2: 4 + 1 = 5 rows, padded to 8.
    let t2 = traces[2].as_ref().unwrap();
    assert_eq!(t2.rows.len(), 5);
    assert_eq!(t2.padded_height, 8);
    for t in traces.iter().flatten() {
        for row in &t.rows {
            let max = if row.left_timestamp >= row.right_timestamp {
                row.left_timestamp
            } else {
                row.right_timestamp
            };
            assert_eq!(row.parent_timestamp, max);
        }
    }
}

#[test]
fn adapter_trace_absent_for_untouched_level() {
    // A single 4-cell record resolved to 2-cell blocks only touches
    // level 1.
    let records = vec![record(4, 2, 1)];
    let checker = VariableRangeChecker::new(29);
    let mut inv = AccessAdapterInventoryHIP::new(checker, 32, 29);
    let traces = inv.generate_traces_from_records(&records);
    assert!(traces[0].is_none());
    assert!(traces[1].is_some());
    assert!(traces[2].is_none());
    assert!(traces[3].is_none());
    assert!(traces[4].is_none());
}

#[test]
fn boundary_heights_follow_the_mode() {
    // Persistent mode proves two assertions per touched block; volatile
    // mode one row per record.
    let mut persistent = BoundaryChipHIP::persistent();
    let flat = vec![0u32; 3 * TIMESTAMPED_BLOCK_WIDTH];
    persistent.finalize_records_persistent(flat);
    assert_eq!(persistent.unpadded_trace_height(), 6);

    let checker = VariableRangeChecker::new(29);
    let mut volatile = BoundaryChipHIP::volatile(checker, 3, 20);
    let blocks = vec![
        TouchedBlock { address_space: 1, label: 0, timestamp: 4, values: [1; 8] },
        TouchedBlock { address_space: 1, label: 8, timestamp: 6, values: [2; 8] },
        TouchedBlock { address_space: 2, label: 0, timestamp: 9, values: [3; 8] },
    ];
    volatile.finalize_records_volatile(&blocks);
    assert_eq!(volatile.unpadded_trace_height(), 3);
    assert_eq!(volatile.trace_width(), 11);
}

#[test]
fn equipartition_extracts_touched_chunks_in_order() {
    // 32 cells: chunk 1 written at timestamps 5 and 9, chunk 3 at 2;
    // chunks 0 and 2 untouched.
    let mut values = vec![0u32; 32];
    let mut timestamps = vec![0u32; 32];
    values[8] = 77;
    timestamps[8] = 5;
    values[15] = 88;
    timestamps[15] = 9;
    values[24] = 99;
    timestamps[24] = 2;
    let blocks = extract_touched_blocks(4, &values, &timestamps);
    assert_eq!(blocks.len(), 2);
    assert_eq!(blocks[0].label, 1);
    assert_eq!(blocks[0].timestamp, 9);
    assert_eq!(blocks[0].values[0], 77);
    assert_eq!(blocks[0].values[7], 88);
    assert_eq!(blocks[1].label, 3);
    assert_eq!(blocks[1].timestamp, 2);
    assert_eq!(blocks[1].values[0], 99);
    assert_eq!(blocks[0].address_space, 4);
}

#[test]
fn phantom_trace_height_counts_records() {
    assert_eq!(PhantomChipHIP::trace_height(0), 0);
    assert_eq!(PhantomChipHIP::trace_height(3 * PHANTOM_RECORD_SIZE), 3);
    assert_eq!(PhantomChipHIP::trace_width(), 6);
}

#[test]
fn range_checker_counts_assertions() {
    let mut checker = VariableRangeChecker::new(8);
    assert_eq!(checker.counts.len(), 9);
    checker.add_count(5, 3);
    checker.add_count(7, 3);
    checker.add_count(0, 0);
    assert_eq!(checker.counts[3], 2);
    assert_eq!(checker.counts[0], 1);
    assert_eq!(checker.counts[8], 0);
}

#[test]
fn record_offsets_walk_the_stream() {
    let records = vec![record(8, 2, 10), record(32, 4, 50), record(2, 1, 90)];
    let offsets = record_offsets(&records);
    assert_eq!(offsets.len(), 3);
    // word offsets: 0, then 5 + 8 + 4 = 17, then 17 + 5 + 32 + 8 = 62.
    assert_eq!(offsets[0].record_offset, 0);
    assert_eq!(offsets[1].record_offset, 17);
    assert_eq!(offsets[2].record_offset, 62);
    // cumulative rows before each record: the first contributes 4 and 2
    // rows to levels 1 and 2.
    assert_eq!(offsets[0].adapter_rows, [0, 0, 0, 0, 0]);
    assert_eq!(offsets[1].adapter_rows, [0, 2, 1, 0, 0]);
    assert_eq!(offsets[2].adapter_rows, [0, 2, 5, 2, 1]);
}
