use bytes::Bytes;
use dataflow_extensions::azure_monitor_exporter::error::ExporterError;
use dataflow_extensions::azure_monitor_exporter::gzip_batcher::{
    oversize_failure, FinalizeResult, GzipBatcher, MAX_GZIP_FLUSH_COUNT, ONE_MB, PushResult,
    TARGET_LIMIT,
};
use flate2::read::GzDecoder;
use flate2::write::GzEncoder;
use flate2::Compression;
use rand::RngExt;
use std::io::{Read, Write};

// ==================== Test Helpers ====================

fn generate_data(size: usize) -> Vec<u8> {
    let mut rng = rand::rng();
    let id = rng.random_range(10000..99999);
    let timestamp = rng.random_range(1600000000..1700000000);

    let base = format!(r#"{{"id":{},"ts":{},"msg":""#, id, timestamp);
    let closing = r#""}"#;

    let padding_needed = size.saturating_sub(base.len() + closing.len());
    let padding: String = (0..padding_needed)
        .map(|_| rng.random_range(b'a'..=b'z') as char)
        .collect();

    format!("{}{}{}", base, padding, closing).into_bytes()
}

fn generate_1kb_data() -> Vec<u8> {
    generate_data(1024)
}

fn decompress_and_validate(data: &Bytes) -> String {
    let mut decoder = GzDecoder::new(&data[..]);
    let mut decompressed = String::new();
    _ = decoder
        .read_to_string(&mut decompressed)
        .expect("Should decompress");

    let trimmed = decompressed.trim();
    assert!(trimmed.starts_with('['), "Should start with [");
    assert!(trimmed.ends_with(']'), "Should end with ]");

    // Remove all whitespace to check for structural issues like [, or ,]
    let no_whitespace: String = decompressed
        .chars()
        .filter(|c| !c.is_whitespace())
        .collect();

    // Ensure no invalid comma placement (ignoring whitespace)
    assert!(
        !no_whitespace.contains("[,") && !no_whitespace.contains(",]"),
        "Invalid comma placement found in JSON: {}",
        decompressed
    );

    decompressed
}

// ==================== Construction & State Tests ====================

#[test]
fn test_new_creates_empty_batcher() {
    let mut batcher = GzipBatcher::new(1);
    assert!(!batcher.has_pending_data());
    assert!(batcher.take_pending_batch().is_none());
}

#[test]
fn test_has_pending_data_lifecycle() {
    let mut batcher = GzipBatcher::new(1);
    assert!(!batcher.has_pending_data());

    let _ = batcher.push(generate_1kb_data().into()).unwrap();
    assert!(batcher.has_pending_data());

    let _ = batcher.finalize().unwrap();
    assert!(!batcher.has_pending_data());
}

#[test]
fn test_take_pending_batch_lifecycle() {
    let mut batcher = GzipBatcher::new(1);
    assert!(batcher.take_pending_batch().is_none());

    let _ = batcher.push(generate_1kb_data().into()).unwrap();
    let _ = batcher.finalize().unwrap();

    let batch = batcher.take_pending_batch();
    assert!(batch.is_some());
    assert!(batcher.take_pending_batch().is_none());
}

// ==================== Push Logic Tests ====================

#[test]
fn test_push_single_entry() {
    let mut batcher = GzipBatcher::new(1);
    match batcher.push(generate_1kb_data().into()).unwrap() {
        PushResult::Accepted(id) => assert_eq!(id, 1),
        _ => panic!("Should be Ok"),
    }
}

#[test]
fn test_push_too_large_entry() {
    let mut batcher = GzipBatcher::new(1);
    let large_data = vec![b'x'; ONE_MB];
    match batcher.push(large_data.into()).unwrap() {
        PushResult::TooLarge => {} // Expected
        _ => panic!("Should be TooLarge"),
    }
}

#[test]
fn test_push_just_under_limit() {
    let mut batcher = GzipBatcher::new(1);
    // Max allowed: TARGET_LIMIT - 2 (for '[' and ']')
    let data = vec![b'x'; TARGET_LIMIT - 2];
    match batcher.push(data.into()).unwrap() {
        PushResult::Accepted(_) | PushResult::BatchReady(_) => {} // Expected
        PushResult::TooLarge => panic!("Should fit"),
    }
}

#[test]
fn test_push_returns_batch_ready_when_pending_exists() {
    let mut batcher = GzipBatcher::new(1);

    // Force a pending batch
    loop {
        if let PushResult::BatchReady(_) = batcher.push(generate_1kb_data().into()).unwrap() {
            break;
        }
    }

    // Subsequent pushes should return BatchReady
    match batcher.push(generate_1kb_data().into()).unwrap() {
        PushResult::BatchReady(_) => {}
        _ => panic!("Should return BatchReady"),
    }
}

#[test]
fn test_push_batch_id_increments() {
    let mut batcher = GzipBatcher::new(1);
    let mut last_id = 0;

    for _ in 0..3 {
        loop {
            match batcher.push(generate_1kb_data().into()).unwrap() {
                PushResult::Accepted(_) => continue,
                PushResult::BatchReady(id) => {
                    assert!(id > last_id);
                    last_id = id;
                    let _ = batcher.take_pending_batch();
                    break;
                }
                _ => panic!("Unexpected"),
            }
        }
    }
}

// ==================== Flush & Finalize Tests ====================

#[test]
fn test_flush_empty_batcher() {
    let mut batcher = GzipBatcher::new(1);
    match batcher.finalize().unwrap() {
        FinalizeResult::Empty => {}
        _ => panic!("Should be Empty"),
    }
}

#[test]
fn test_flush_with_data() {
    let mut batcher = GzipBatcher::new(1);
    let _ = batcher.push(generate_1kb_data().into()).unwrap();

    match batcher.finalize().unwrap() {
        FinalizeResult::Finalized => {
            let batch = batcher.take_pending_batch().unwrap();
            assert!(batch.row_count > 0);
            assert!(!batch.compressed_data.is_empty());
        }
        _ => panic!("Should be Ok"),
    }
}

#[test]
fn test_flush_multiple_times() {
    let mut batcher = GzipBatcher::new(1);

    // Batch 1
    let _ = batcher.push(generate_1kb_data().into()).unwrap();
    let _ = batcher.finalize().unwrap();
    let b1 = batcher.take_pending_batch().unwrap();

    // Batch 2
    let _ = batcher.push(generate_1kb_data().into()).unwrap();
    let _ = batcher.finalize().unwrap();
    let b2 = batcher.take_pending_batch().unwrap();

    assert!(b2.batch_id > b1.batch_id);
}

// ==================== Integration & Format Tests ====================

#[test]
fn test_output_is_valid_gzip_json_array() {
    let mut batcher = GzipBatcher::new(1);
    for _ in 0..10 {
        let _ = batcher.push(generate_1kb_data().into()).unwrap();
    }
    let _ = batcher.finalize().unwrap();

    let batch = batcher.take_pending_batch().unwrap();
    let decompressed = decompress_and_validate(&batch.compressed_data);

    let parsed: Vec<serde_json::Value> = serde_json::from_str(&decompressed).unwrap();
    assert_eq!(parsed.len(), 10);
}

#[test]
fn test_row_count_accuracy() {
    let mut batcher = GzipBatcher::new(1);
    for _ in 0..42 {
        let _ = batcher.push(generate_1kb_data().into()).unwrap();
    }
    let _ = batcher.finalize().unwrap();
    assert_eq!(batcher.take_pending_batch().unwrap().row_count, 42);
}

#[test]
fn test_interleaved_push_and_take() {
    let mut batcher = GzipBatcher::new(1);

    let _ = batcher.push(generate_1kb_data().into()).unwrap();
    let _ = batcher.finalize().unwrap();
    let _ = batcher.take_pending_batch();

    let _ = batcher.push(generate_1kb_data().into()).unwrap();
    let _ = batcher.finalize().unwrap();
    let b2 = batcher.take_pending_batch().unwrap();

    assert_eq!(b2.row_count, 1);
}

// ==================== Comma Handling Regression Tests ====================

#[test]
fn test_no_leading_comma_after_bracket() {
    let mut batcher = GzipBatcher::new(1);
    let _ = batcher.push(Bytes::from_static(b"1")).unwrap();
    let _ = batcher.push(Bytes::from_static(b"2")).unwrap();
    let _ = batcher.finalize().unwrap();

    let json = decompress_and_validate(&batcher.take_pending_batch().unwrap().compressed_data);
    assert_eq!(json, "[1,2]");
}

#[test]
fn test_no_trailing_comma_before_bracket() {
    let mut batcher = GzipBatcher::new(1);
    let _ = batcher.push(Bytes::from_static(b"1")).unwrap();
    let _ = batcher.finalize().unwrap();

    let json = decompress_and_validate(&batcher.take_pending_batch().unwrap().compressed_data);
    assert_eq!(json, "[1]");
}

#[test]
fn test_format_valid_after_auto_finalize() {
    let mut batcher = GzipBatcher::new(1);

    // Fill until split
    loop {
        if let PushResult::BatchReady(_) = batcher.push(generate_1kb_data().into()).unwrap() {
            break;
        }
    }

    let batch = batcher.take_pending_batch().unwrap();
    let json = decompress_and_validate(&batch.compressed_data);

    assert!(!json.contains("[,"));
    assert!(!json.contains(",]"));
    assert!(serde_json::from_str::<Vec<serde_json::Value>>(&json).is_ok());
}

#[test]
fn test_format_valid_for_second_batch() {
    let mut batcher = GzipBatcher::new(1);

    // Fill first batch and discard
    loop {
        if let PushResult::BatchReady(_) = batcher.push(generate_1kb_data().into()).unwrap() {
            break;
        }
    }
    let _ = batcher.take_pending_batch();

    // Second batch
    // Note: This batch will start with the "spillover" entry that triggered the previous BatchReady.
    // We append more data to it.
    let _ = batcher.push(Bytes::from_static(b"1")).unwrap();
    let _ = batcher.push(Bytes::from_static(b"2")).unwrap();
    let _ = batcher.finalize().unwrap();

    // decompress_and_validate checks for [, and ,] and [] wrapping
    let json = decompress_and_validate(&batcher.take_pending_batch().unwrap().compressed_data);

    // If it deserializes successfully, the format is valid.
    let parsed: Result<Vec<serde_json::Value>, _> = serde_json::from_str(&json);
    assert!(
        parsed.is_ok(),
        "Second batch must be valid JSON. Got error: {:?}. Content: {}",
        parsed.err(),
        json
    );

    // We can also verify it contains at least the elements we explicitly added
    let array = parsed.unwrap();
    assert!(array.len() >= 2);
    assert_eq!(array[array.len() - 2], serde_json::Value::from(1));
    assert_eq!(array[array.len() - 1], serde_json::Value::from(2));
}

// ==================== Size Limit Tests ====================

struct BatchStats {
    size: usize,
    flush_count: usize,
}

/// Helper: fill a batcher until BatchReady, return batch stats.
fn fill_to_batch_ready(compression_level: u32, gen_chunk: &dyn Fn() -> Vec<u8>) -> BatchStats {
    let mut batcher = GzipBatcher::new(compression_level);
    loop {
        let chunk = gen_chunk();
        match batcher.push(chunk.into()).unwrap() {
            PushResult::Accepted(_) => continue,
            PushResult::BatchReady(_) => break,
            PushResult::TooLarge => panic!("Should not happen with small chunks"),
        }
    }
    let batch = batcher.take_pending_batch().unwrap();
    BatchStats {
        size: batch.compressed_data.len(),
        flush_count: batch.flush_count,
    }
}

/// Maximum allowed waste relative to TARGET_LIMIT.
/// 16KB entries with coarse finalization granularity can reach ~2%.
const MAX_WASTE_PERCENT: f64 = 3.0;

fn assert_batch_utilization(stats: &BatchStats, label: &str) {
    // Hard limit: must never exceed ONE_MB.
    assert!(
        stats.size <= ONE_MB,
        "{label}: batch size {} exceeds hard limit (ONE_MB = {ONE_MB})",
        stats.size
    );
    // Utilization: should be close to TARGET_LIMIT.
    let utilization = stats.size as f64 / TARGET_LIMIT as f64 * 100.0;
    let waste = 100.0 - utilization;
    assert!(
        waste <= MAX_WASTE_PERCENT,
        "{label}: batch size {} ({utilization:.1}% utilization, \
         {waste:.1}% waste) exceeds {MAX_WASTE_PERCENT}% waste threshold",
        stats.size
    );
    assert!(
        stats.flush_count <= MAX_GZIP_FLUSH_COUNT,
        "{label}: flush count {} exceeds limit {MAX_GZIP_FLUSH_COUNT}",
        stats.flush_count
    );
}

/// JSON with random hex payload for low-compressibility coverage.
fn generate_hex_json(size: usize) -> Vec<u8> {
    let mut rng = rand::rng();
    let hex = b"0123456789abcdef";
    let base = r#"{"v":""#;
    let closing = r#""}"#;
    let val_len = size.saturating_sub(base.len() + closing.len());
    let val: String = (0..val_len)
        .map(|_| hex[rng.random_range(0..16usize)] as char)
        .collect();
    format!("{base}{val}{closing}").into_bytes()
}

#[test]
fn test_batch_utilization_json_log_data() {
    for level in [1u32, 6, 9] {
        for entry_size in [256, 1024, 2048, 16384] {
            let stats = fill_to_batch_ready(level, &|| generate_data(entry_size));
            assert_batch_utilization(&stats, &format!("json_log/{entry_size}B/level_{level}"));
        }
    }
}

/// Hex-payload JSON: minimal object with random hex value.
#[test]
fn test_batch_utilization_hex_json_data() {
    let runtime = tokio::runtime::Builder::new_current_thread().build().unwrap();
    let levels: Vec<_> = [9u32, 6, 1]
        .into_iter()
        .map(|level| {
            runtime.spawn_blocking(move || {
                for entry_size in [10, 256, 1024, 16384] {
                    let stats = fill_to_batch_ready(level, &|| generate_hex_json(entry_size));
                    let label = format!("hex_json/{entry_size}B/level_{level}");
                    assert_batch_utilization(&stats, &label);
                }
            })
        })
        .collect();
    for level in levels {
        runtime.block_on(level).unwrap();
    }
}

/// Stress test: smallest valid JSON entries (`1`) maximize the ratio of
/// commas to data, exercising the structural byte accounting heavily.
#[test]
fn test_batch_utilization_tiny_json_entries() {
    let runtime = tokio::runtime::Builder::new_current_thread().build().unwrap();
    let levels: Vec<_> = [9u32, 6, 1]
        .into_iter()
        .map(|level| {
            let stats = runtime.spawn_blocking(move || {
                fill_to_batch_ready(level, &|| {
                    let mut rng = rand::rng();
                    vec![rng.random_range(b'0'..=b'9')]
                })
            });
            (level, stats)
        })
        .collect();
    for (level, stats) in levels {
        let stats = runtime.block_on(stats).unwrap();
        assert_batch_utilization(&stats, &format!("tiny_json/level_{level}"));
    }
}

/// Stress test: wildly varying JSON entry sizes within a single batch.
/// Mixes tiny (1-10B), medium (256-1KB), and large (8-16KB) entries
/// to exercise size accounting across granularity transitions.
#[test]
fn test_batch_utilization_mixed_json_sizes() {
    let sizes = [1, 5, 10, 50, 256, 512, 1024, 4096, 8192, 16384];
    for level in [1u32, 6, 9] {
        let counter = std::cell::Cell::new(0usize);
        let stats = fill_to_batch_ready(level, &|| {
            let i = counter.get();
            counter.set(i + 1);
            generate_data(sizes[i % sizes.len()])
        });
        assert_batch_utilization(&stats, &format!("mixed_json/level_{level}"));
    }
}

/// Stress test with minimal JSON and random hex payload.
#[test]
fn test_1mb_limit_with_hex_json_payload() {
    let hex = b"0123456789abcdef";
    let mut rng = rand::rng();
    for _ in 0..5 {
        let mut batcher = GzipBatcher::new(1);
        loop {
            // Minimal JSON: {"v":"<random hex>"}
            let val: String = (0..200)
                .map(|_| hex[rng.random_range(0..16usize)] as char)
                .collect();
            let entry = format!(r#"{{"v":"{val}"}}"#).into_bytes();
            match batcher.push(entry.into()).unwrap() {
                PushResult::Accepted(_) => continue,
                PushResult::BatchReady(_) => break,
                PushResult::TooLarge => panic!("Should not happen"),
            }
        }

        let batch = batcher.take_pending_batch().unwrap();
        assert!(
            batch.compressed_data.len() <= ONE_MB,
            "Batch size {} exceeds 1MB limit with hex-payload JSON",
            batch.compressed_data.len()
        );
    }
}

/// Verify structural bytes ('[', ',', ']') are correctly accounted for
/// by checking that a single entry produces valid JSON with no overflow.
#[test]
fn test_structural_bytes_accounting() {
    let mut batcher = GzipBatcher::new(6);
    // Push data that's just under the limit minus structural overhead
    let data = vec![b'a'; TARGET_LIMIT - 3]; // -3 for '[', ']', and slack
    match batcher.push(data.into()).unwrap() {
        PushResult::Accepted(_) => {}
        other => panic!("Expected Ok, got {:?}", std::mem::discriminant(&other)),
    }
    let _ = batcher.finalize().unwrap();
    let batch = batcher.take_pending_batch().unwrap();
    assert!(
        batch.compressed_data.len() <= ONE_MB,
        "Single large entry batch {} exceeds 1MB",
        batch.compressed_data.len()
    );
}

/// Verify the TooLarge check accounts for structural bytes.
#[test]
fn test_too_large_includes_structural_overhead() {
    let mut batcher = GzipBatcher::new(1);
    // Exactly TARGET_LIMIT - 1: too large because +2 for structural bytes
    let data = vec![b'x'; TARGET_LIMIT - 1];
    match batcher.push(data.into()).unwrap() {
        PushResult::TooLarge => {} // Expected: data.len() + 2 > TARGET_LIMIT
        _ => panic!("Should be TooLarge"),
    }
}

// ==================== Edge Case Tests ====================

/// Verify JSON validity across flush boundaries: commas must separate
/// entries even when a sync flush occurs between them.
#[test]
fn test_comma_present_after_flush_boundary() {
    let mut batcher = GzipBatcher::new(6);

    // Fill until we trigger at least one flush, then finalize.
    loop {
        match batcher.push(generate_1kb_data().into()).unwrap() {
            PushResult::Accepted(_) => continue,
            PushResult::BatchReady(_) => break,
            PushResult::TooLarge => panic!("Should not happen"),
        }
    }

    let batch = batcher.take_pending_batch().unwrap();
    assert!(batch.flush_count > 0, "Test requires at least one flush");

    // Decompress and verify it's a valid JSON array with commas between entries.
    let json = decompress_and_validate(&batch.compressed_data);
    let parsed: Vec<serde_json::Value> =
        serde_json::from_str(&json).expect("Must be valid JSON with commas between entries");
    assert!(parsed.len() > 1, "Must have multiple entries");
}

/// Verify batches never exceed the ONE_MB hard limit across all
/// compression levels.
#[test]
fn test_hard_limit_enforced_across_levels() {
    for level in [1u32, 6, 9] {
        let mut batcher = GzipBatcher::new(level);
        loop {
            match batcher.push(generate_1kb_data().into()).unwrap() {
                PushResult::Accepted(_) => continue,
                PushResult::BatchReady(_) => break,
                PushResult::TooLarge => panic!("Should not happen"),
            }
        }
        let batch = batcher.take_pending_batch().unwrap();
        assert!(
            batch.compressed_data.len() <= ONE_MB,
            "level {level}: batch {} exceeds hard limit",
            batch.compressed_data.len()
        );
    }
}

/// Verify each batch starts with '[' and produces valid JSON across
/// multiple consecutive batches.
#[test]
fn test_is_first_entry_correct_across_batches() {
    let mut batcher = GzipBatcher::new(1);

    // Fill first batch
    loop {
        if let PushResult::BatchReady(_) = batcher.push(generate_1kb_data().into()).unwrap() {
            break;
        }
    }

    // Validate first batch
    let b1 = batcher.take_pending_batch().unwrap();
    let json1 = decompress_and_validate(&b1.compressed_data);
    assert!(json1.starts_with('['));
    assert!(
        serde_json::from_str::<Vec<serde_json::Value>>(&json1).is_ok(),
        "First batch must be valid JSON"
    );

    // The spillover entry already started batch 2. Add more and finalize.
    let _ = batcher.push(Bytes::from_static(b"1")).unwrap();
    let _ = batcher.finalize().unwrap();

    let b2 = batcher.take_pending_batch().unwrap();
    let json2 = decompress_and_validate(&b2.compressed_data);
    assert!(json2.starts_with('['));
    assert!(
        !json2.starts_with("[,"),
        "Second batch must not start with '[,'"
    );
    assert!(
        serde_json::from_str::<Vec<serde_json::Value>>(&json2).is_ok(),
        "Second batch must be valid JSON"
    );
}

#[test]
fn entries_come_out_in_the_order_they_went_in() {
    let mut batcher = GzipBatcher::new(6);
    let mut sent: Vec<u64> = Vec::new();
    let mut received: Vec<u64> = Vec::new();
    let mut take = |batcher: &mut GzipBatcher| {
        if let Some(batch) = batcher.take_pending_batch() {
            let json = decompress_and_validate(&batch.compressed_data);
            let rows: Vec<serde_json::Value> = serde_json::from_str(&json).unwrap();
            assert_eq!(rows.len() as u64, batch.row_count);
            received.extend(rows.iter().map(|row| row["n"].as_u64().unwrap()));
        }
    };
    for n in 0..6000u64 {
        let noise = String::from_utf8(generate_hex_json(600)).unwrap();
        let row = format!(r#"{{"n":{n},"x":{noise}}}"#);
        match batcher.push(row.into_bytes().into()).unwrap() {
            PushResult::Accepted(_) => sent.push(n),
            PushResult::BatchReady(_) => {
                sent.push(n);
                take(&mut batcher);
            }
            PushResult::TooLarge => panic!("Should fit"),
        }
    }
    while batcher.has_pending_data() {
        let _ = batcher.finalize().unwrap();
        take(&mut batcher);
    }
    assert_eq!(received, sent);
}

#[test]
fn a_pending_batch_takes_no_entries() {
    let mut batcher = GzipBatcher::new(1);
    let _ = batcher.push(Bytes::from_static(b"1")).unwrap();
    assert_eq!(batcher.finalize().unwrap(), FinalizeResult::Finalized);
    let id = match batcher.push(Bytes::from_static(b"2")).unwrap() {
        PushResult::BatchReady(id) => id,
        other => panic!("Should return BatchReady, got {other:?}"),
    };
    assert_eq!(id, 2);
    let first = batcher.take_pending_batch().unwrap();
    assert_eq!(first.batch_id, 1);
    assert_eq!(decompress_and_validate(&first.compressed_data), "[1]");
    assert_eq!(batcher.push(Bytes::from_static(b"3")).unwrap(), PushResult::Accepted(2));
    let _ = batcher.finalize().unwrap();
    let second = batcher.take_pending_batch().unwrap();
    assert_eq!(decompress_and_validate(&second.compressed_data), "[3]");
}

#[test]
fn a_refused_entry_leaves_the_batch_as_it_was() {
    let mut batcher = GzipBatcher::new(1);
    let _ = batcher.push(Bytes::from_static(b"1")).unwrap();
    let huge = vec![b'x'; TARGET_LIMIT - 1];
    assert_eq!(batcher.push(huge.into()).unwrap(), PushResult::TooLarge);
    let _ = batcher.push(Bytes::from_static(b"2")).unwrap();
    let _ = batcher.finalize().unwrap();
    let batch = batcher.take_pending_batch().unwrap();
    assert_eq!(decompress_and_validate(&batch.compressed_data), "[1,2]");
    assert_eq!(batch.row_count, 2);
    assert_eq!(batch.flush_count, 0);
}

#[test]
fn the_level_decides_how_rows_are_compressed() {
    let row = vec![b'7'; 50_000];
    let mut sizes: Vec<usize> = Vec::new();
    for level in [0u32, 1, 6, 9] {
        let mut batcher = GzipBatcher::new(level);
        let _ = batcher.push(row.clone().into()).unwrap();
        let _ = batcher.push(Bytes::from_static(b"8")).unwrap();
        let _ = batcher.finalize().unwrap();
        let batch = batcher.take_pending_batch().unwrap();
        let mut encoder = GzEncoder::new(Vec::new(), Compression::new(level));
        for part in [&b"["[..], &row[..], &b","[..], &b"8"[..], &b"]"[..]] {
            encoder.write_all(part).unwrap();
        }
        assert_eq!(&batch.compressed_data[..], &encoder.finish().unwrap()[..]);
        sizes.push(batch.compressed_data.len());
    }
    assert!(sizes[0] > 50_000, "level 0 stores");
    assert!(sizes[3] < 1_000, "level 9 compresses");
}

#[test]
fn the_entry_without_room_starts_the_next_batch() {
    let mut batcher = GzipBatcher::new(1);
    let mut pushed: u64 = 0;
    let (last, id) = loop {
        let row = generate_hex_json(20_000);
        match batcher.push(row.clone().into()).unwrap() {
            PushResult::Accepted(_) => pushed += 1,
            PushResult::BatchReady(id) => break (row, id),
            PushResult::TooLarge => panic!("Should fit"),
        }
    };
    let first = batcher.take_pending_batch().unwrap();
    assert_eq!(first.row_count, pushed);
    assert_eq!(id, first.batch_id + 1);
    assert_eq!(batcher.finalize().unwrap(), FinalizeResult::Finalized);
    let second = batcher.take_pending_batch().unwrap();
    assert_eq!(second.batch_id, id);
    assert_eq!(second.row_count, 1);
    let expected = format!("[{}]", String::from_utf8(last).unwrap());
    assert_eq!(decompress_and_validate(&second.compressed_data), expected);
}

#[test]
fn an_oversize_row_is_a_failure_to_finalize() {
    match oversize_failure() {
        ExporterError::BatchFinalizeFailed(cause) => assert_eq!(
            cause.to_string(),
            "batch exceeds 1 MiB hard limit after oversize recovery"
        ),
        other => panic!("unexpected error {other:?}"),
    }
}
