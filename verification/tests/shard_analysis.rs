//! Data analysis: compressed size of sparse histories against raw `u64` arrays.

use bench_mdbx_shard::bitmap::bitmap_to_bytes;
use bench_mdbx_shard::blocks::generate_sparse_blocks;
use bench_mdbx_shard::BLOCK_NUM_SIZE;

/// History sizes: number of block numbers per address
const HISTORY_SIZES: &[(u64, &str)] = &[
    (10_000, "10K"),
    (100_000, "100K"),
    (500_000, "500K"),
    (1_000_000, "1M"),
];

const AVG_GAP: u64 = 10;

fn format_bytes(bytes: usize) -> String {
    if bytes >= 1_048_576 {
        format!("{:.1} MiB", bytes as f64 / 1_048_576.0)
    } else if bytes >= 1024 {
        format!("{:.1} KiB", bytes as f64 / 1024.0)
    } else {
        format!("{} B", bytes)
    }
}

#[test]
fn compression_ratio() {
    println!("\n{}", "=".repeat(120));
    println!("COMPRESSION: RoaringTreemap size vs raw u64 array");
    println!("{}", "=".repeat(120));
    println!(
        "{:>8} | {:>12} {:>12} {:>8} | {:>10}",
        "blocks", "raw_size", "compressed", "ratio", "per_entry"
    );
    println!("{}", "-".repeat(65));

    for &(count, label) in HISTORY_SIZES {
        let blocks = generate_sparse_blocks(count, AVG_GAP);
        let raw_size = count as usize * BLOCK_NUM_SIZE;
        let compressed = bitmap_to_bytes(&blocks);
        let ratio = raw_size as f64 / compressed.len() as f64;
        let per_entry = compressed.len() as f64 / count as f64;

        println!(
            "{:>8} | {:>12} {:>12} {:>7.1}x | {:>8.1} B",
            label,
            format_bytes(raw_size),
            format_bytes(compressed.len()),
            ratio,
            per_entry,
        );
    }
}
