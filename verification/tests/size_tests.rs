use openmem::node::NodeContent;
use openmem::size::{all_sizes, format_size, format_stats, node_size, vault_stats, SizeCategory, VaultStats};

fn node(path: &str, content: &str) -> NodeContent {
    NodeContent { path: path.to_string(), content: Some(content.to_string()) }
}

#[test]
fn node_size_calculates() {
    let size = node_size("test", "Hello\nWorld\n");
    assert_eq!(size.bytes, 12); // "Hello\nWorld\n"
    assert_eq!(size.lines, 2);
}

#[test]
fn format_size_bytes() {
    assert_eq!(format_size(500), "500B");
}

#[test]
fn format_size_kb() {
    assert_eq!(format_size(2048), "2.0KB");
}

#[test]
fn size_category_tiny() {
    assert_eq!(SizeCategory::from_bytes(100), SizeCategory::Tiny);
}

#[test]
fn size_category_small() {
    assert_eq!(SizeCategory::from_bytes(1000), SizeCategory::Small);
}

#[test]
fn size_category_medium() {
    assert_eq!(SizeCategory::from_bytes(4000), SizeCategory::Medium);
}

#[test]
fn size_category_large() {
    assert_eq!(SizeCategory::from_bytes(10000), SizeCategory::Large);
}

#[test]
fn vault_stats_calculates() {
    let nodes = vec![
        node("large", &"x".repeat(10000)),
        node("medium", &"x".repeat(4000)),
        node("small", &"x".repeat(1000)),
        node("tiny", &"x".repeat(100)),
    ];

    let stats = vault_stats(&nodes);

    assert_eq!(stats.node_count, 4);
    assert_eq!(stats.tiny_count, 1);
    assert_eq!(stats.small_count, 1);
    assert_eq!(stats.medium_count, 1);
    assert_eq!(stats.large_count, 1);
    assert_eq!(stats.largest_node, Some("large".to_string()));
}

#[test]
fn format_stats_output() {
    let stats = VaultStats {
        node_count: 10,
        total_bytes: 50000,
        total_tokens: 12500,
        largest_node: Some("big-node".to_string()),
        largest_bytes: 10000,
        large_count: 1,
        medium_count: 2,
        small_count: 3,
        tiny_count: 4,
    };

    let output = format_stats(&stats);

    assert!(output.contains("# Vault Statistics"));
    assert!(output.contains("Nodes: 10"));
    assert!(output.contains("big-node"));
}

// ==========================================
// More sizes
// ==========================================

fn float_text(bytes: usize) -> String {
    if bytes < 1024 {
        format!("{}B", bytes)
    } else if bytes < 1024 * 1024 {
        format!("{:.1}KB", bytes as f64 / 1024.0)
    } else {
        format!("{:.1}MB", bytes as f64 / (1024.0 * 1024.0))
    }
}

#[test]
fn format_size_agrees_with_float_formatting() {
    let mut samples: Vec<usize> = Vec::new();
    for b in 0..20000usize {
        samples.push(b);
    }
    for k in 0..4000usize {
        samples.push(1024 * 1024 - 2000 + k);
        samples.push(1024 * 1024 * 7 + k * 52429);
        samples.push(k * 104857 + 1024 * 1024);
    }
    for shift in 20..64u32 {
        let base = 1usize << shift;
        for d in [0usize, 1, 2, 3, 52428, 52429, 104857, 104858] {
            samples.push(base.wrapping_add(d));
            samples.push(base.wrapping_sub(d));
            samples.push(base | (base >> 1) | d);
        }
    }
    samples.push(usize::MAX);
    samples.push(usize::MAX - 1);
    for b in samples {
        assert_eq!(format_size(b), float_text(b), "bytes = {}", b);
    }
}

#[test]
fn format_size_exact_values() {
    assert_eq!(format_size(0), "0B");
    assert_eq!(format_size(1023), "1023B");
    assert_eq!(format_size(1024), "1.0KB");
    assert_eq!(format_size(1280), "1.2KB");
    assert_eq!(format_size(1536), "1.5KB");
    assert_eq!(format_size(1024 * 1024), "1.0MB");
    assert_eq!(format_size(5 * 1024 * 1024 / 2), "2.5MB");
}

#[test]
fn size_category_boundaries() {
    assert_eq!(SizeCategory::from_bytes(499), SizeCategory::Tiny);
    assert_eq!(SizeCategory::from_bytes(500), SizeCategory::Small);
    assert_eq!(SizeCategory::from_bytes(1999), SizeCategory::Small);
    assert_eq!(SizeCategory::from_bytes(2000), SizeCategory::Medium);
    assert_eq!(SizeCategory::from_bytes(7999), SizeCategory::Medium);
    assert_eq!(SizeCategory::from_bytes(8000), SizeCategory::Large);
    assert_eq!(SizeCategory::Tiny.marker(), "");
    assert_eq!(SizeCategory::Small.marker(), " [S]");
    assert_eq!(SizeCategory::Medium.marker(), " [M]");
    assert_eq!(SizeCategory::Large.marker(), " [L]");
}

#[test]
fn all_sizes_largest_first_and_skips_unreadable() {
    let nodes = vec![
        node("a", "12"),
        NodeContent { path: "gone".to_string(), content: None },
        node("b", "12345"),
        node("c", "12"),
    ];
    let sizes = all_sizes(&nodes);
    let paths: Vec<&str> = sizes.iter().map(|s| s.path.as_str()).collect();
    assert_eq!(paths, vec!["b", "a", "c"]);
    assert_eq!(sizes[0].bytes, 5);
}

#[test]
fn node_size_counts_utf8_bytes_and_tokens() {
    let size = node_size("n", "héllo wörld");
    assert_eq!(size.bytes, 13);
    assert_eq!(size.lines, 1);
    assert_eq!(size.tokens, 2);
    assert_eq!(size.path, "n");
}

#[test]
fn vault_stats_empty_listing() {
    let stats = vault_stats(&Vec::new());
    assert_eq!(stats.node_count, 0);
    assert_eq!(stats.total_bytes, 0);
    assert_eq!(stats.largest_node, None);
    assert_eq!(
        format_stats(&stats),
        "# Vault Statistics\n\n## Overview\n- Nodes: 0\n- Total size: 0B\n- Estimated tokens: ~0\n\n## Size Distribution\n- Tiny (<500): 0\n- Small (500-2000): 0\n- Medium (2000-8000): 0\n- Large (>8000): 0\n"
    );
}
