use openmem::error::OpenMemError;
use openmem::node::NodeContent;
use openmem::search::{format_results, order_results, search, SearchOptions, SearchResult};

fn node(path: &str, content: &str) -> NodeContent {
    NodeContent { path: path.to_string(), content: Some(content.to_string()) }
}

fn hit(path: &str, line: usize, content: &str) -> SearchResult {
    SearchResult { path: path.to_string(), line, content: content.to_string() }
}

#[test]
fn search_finds_matches() {
    let nodes = vec![
        node("node-a", "This has the word apple.\nAnother line."),
        node("node-b", "No fruit here.\nBut apple pie is good."),
        node("node-c", "Nothing relevant."),
    ];

    let results = search(&nodes, "apple", SearchOptions::default()).unwrap();

    assert_eq!(results.len(), 2);
    assert!(results.iter().any(|r| r.path == "node-a" && r.line == 1));
    assert!(results.iter().any(|r| r.path == "node-b" && r.line == 2));
}

#[test]
fn search_no_matches() {
    let nodes = vec![node("node-a", "Some content.")];

    let results = search(&nodes, "nonexistent", SearchOptions::default()).unwrap();
    assert!(results.is_empty());
}

#[test]
fn search_case_insensitive_by_default() {
    let nodes = vec![node("node-a", "APPLE in caps.")];

    let results = search(&nodes, "apple", SearchOptions::default()).unwrap();
    assert_eq!(results.len(), 1);

    let results = search(&nodes, "APPLE", SearchOptions::default()).unwrap();
    assert_eq!(results.len(), 1);
}

#[test]
fn search_case_sensitive() {
    let nodes = vec![node("node-a", "Apple and apple and APPLE.")];

    let options = SearchOptions {
        case_sensitive: true,
        ..Default::default()
    };
    let results = search(&nodes, "apple", options).unwrap();
    assert_eq!(results.len(), 1); // Only lowercase "apple"
}

#[test]
fn search_with_scope() {
    // The listing under the scope `projects/a`.
    let nodes = vec![node("projects/a/notes", "Contains apple.")];

    let options = SearchOptions {
        scope: Some("projects/a".to_string()),
        ..Default::default()
    };
    let results = search(&nodes, "apple", options).unwrap();

    assert_eq!(results.len(), 1);
    assert_eq!(results[0].path, "projects/a/notes");
}

#[test]
fn search_max_results() {
    let nodes = vec![node("node-1", "apple"), node("node-2", "apple"), node("node-3", "apple")];

    let options = SearchOptions {
        max_results: 2,
        ..Default::default()
    };
    let results = search(&nodes, "apple", options).unwrap();
    assert_eq!(results.len(), 2);
}

#[test]
fn search_regex_pattern() {
    let nodes = vec![node("node-a", "test-123\nAlso test-456"), node("node-b", "no match here")];

    let options = SearchOptions {
        regex: true,
        ..Default::default()
    };
    let results = search(&nodes, r"test-\d+", options).unwrap();
    // Both test-123 and test-456 match, but they're on separate lines
    assert_eq!(results.len(), 2);
}

#[test]
fn format_results_empty() {
    let output = format_results(&[]);
    assert_eq!(output, "No matches found.");
}

#[test]
fn format_results_with_matches() {
    let results = vec![
        SearchResult {
            path: "node-a".to_string(),
            line: 1,
            content: "apple here".to_string(),
        },
        SearchResult {
            path: "node-a".to_string(),
            line: 5,
            content: "another apple".to_string(),
        },
    ];

    let output = format_results(&results);
    assert!(output.contains("node-a:1: apple here"));
    assert!(output.contains("node-a:5: another apple"));
    assert!(output.contains("2 matches across 1 nodes"));
}

// ==========================================
// More searches
// ==========================================

#[test]
fn search_literal_escapes_meta_characters() {
    let nodes = vec![node("n", "costs $5 (approx.)\ncosts 5 dollars")];
    let results = search(&nodes, "$5 (approx.)", SearchOptions::default()).unwrap();
    assert_eq!(results, vec![hit("n", 1, "costs $5 (approx.)")]);
    // As a regex the same text means something else and matches nothing.
    let options = SearchOptions { regex: true, ..Default::default() };
    let results = search(&nodes, "$5 (approx.)", options).unwrap();
    assert!(results.is_empty());
}

#[test]
fn search_invalid_pattern_is_an_error() {
    let nodes = vec![node("n", "text")];
    let options = SearchOptions { regex: true, ..Default::default() };
    let err = search(&nodes, "(unclosed", options).unwrap_err();
    match err {
        OpenMemError::VcsError(msg) => assert!(msg.starts_with("Invalid pattern: ")),
        _ => panic!("Expected VcsError"),
    }
}

#[test]
fn search_sorts_by_path_then_line() {
    let nodes = vec![node("b", "x\nx"), node("a", "nothing\nx")];
    let results = search(&nodes, "x", SearchOptions::default()).unwrap();
    assert_eq!(results, vec![hit("a", 2, "x"), hit("b", 1, "x"), hit("b", 2, "x")]);
}

#[test]
fn search_stops_at_limit_in_listing_order() {
    let nodes = vec![node("b", "x"), node("a", "x"), node("c", "x")];
    let options = SearchOptions { max_results: 2, ..Default::default() };
    let results = search(&nodes, "x", options).unwrap();
    assert_eq!(results, vec![hit("b", 1, "x"), hit("a", 1, "x")]);
}

#[test]
fn search_zero_max_returns_nothing() {
    let nodes = vec![node("a", "x\nx")];
    let options = SearchOptions { max_results: 0, ..Default::default() };
    let results = search(&nodes, "x", options).unwrap();
    assert!(results.is_empty());
}

#[test]
fn search_skips_unreadable_nodes_and_crlf() {
    let nodes = vec![
        NodeContent { path: "gone".to_string(), content: None },
        node("win", "apple\r\npear\r\n"),
    ];
    let results = search(&nodes, "apple", SearchOptions::default()).unwrap();
    assert_eq!(results, vec![hit("win", 1, "apple")]);
}

#[test]
fn order_results_cuts_or_sorts() {
    let found = vec![hit("b", 1, "x"), hit("a", 3, "y"), hit("a", 1, "z")];
    let cut = order_results(found.clone(), 2);
    assert_eq!(cut, vec![hit("b", 1, "x"), hit("a", 3, "y")]);
    let sorted = order_results(found, 5);
    assert_eq!(sorted, vec![hit("a", 1, "z"), hit("a", 3, "y"), hit("b", 1, "x")]);
}

#[test]
fn format_results_counts_distinct_nodes() {
    let results = vec![hit("a", 1, "p"), hit("b", 2, "q"), hit("a", 3, "r")];
    let output = format_results(&results);
    assert_eq!(output, "a:1: p\nb:2: q\na:3: r\n\n3 matches across 2 nodes\n");
}
