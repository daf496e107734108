use openmem::node::NodeContent;
use openmem::survey::{format_report, survey};

fn node(path: &str, content: &str) -> NodeContent {
    NodeContent { path: path.to_string(), content: Some(content.to_string()) }
}

#[test]
fn survey_empty_vault() {
    let result = survey(&Vec::new());
    assert_eq!(result.stats.node_count, 0);
    assert_eq!(result.stats.unique_link_targets, 0);
    assert_eq!(result.stats.orphan_count, 0);
    assert!(result.nodes.is_empty());
    assert!(result.orphans.is_empty());
}

#[test]
fn survey_single_node_no_links() {
    let result = survey(&vec![node("isolated", "No links here.")]);
    assert_eq!(result.stats.node_count, 1);
    assert_eq!(result.stats.orphan_count, 1);
    assert_eq!(result.orphans, vec!["isolated"]);
}

#[test]
fn survey_linked_nodes() {
    let nodes = vec![
        node("projects/acme/frontend", "Uses [[tools/react]] and TypeScript."),
        node("projects/blog/frontend", "Also uses [[tools/react]]."),
        node("tools/react", "# React\nA framework."),
    ];

    let result = survey(&nodes);
    assert_eq!(result.stats.node_count, 3);
    assert_eq!(result.stats.unique_link_targets, 1); // Only tools/react

    // Find tools/react node
    let react_node = result.nodes.iter().find(|n| n.path == "tools/react").unwrap();
    assert_eq!(react_node.backlinks, 2);
    assert_eq!(react_node.outgoing_links, 0);
    assert!(!react_node.is_orphan);

    // Find project nodes
    let acme_node = result
        .nodes
        .iter()
        .find(|n| n.path == "projects/acme/frontend")
        .unwrap();
    assert_eq!(acme_node.outgoing_links, 1);
    assert_eq!(acme_node.backlinks, 0);
    assert!(!acme_node.is_orphan);
}

#[test]
fn survey_identifies_orphans() {
    let nodes = vec![
        node("linked-a", "Links to [[linked-b]]."),
        node("linked-b", "Referenced by a."),
        node("orphan-1", "No links."),
        node("orphan-2", "Also no links."),
    ];

    let result = survey(&nodes);
    assert_eq!(result.stats.orphan_count, 2);

    let orphan_paths: Vec<&str> = result.orphans.iter().map(|s| s.as_str()).collect();
    assert!(orphan_paths.contains(&"orphan-1"));
    assert!(orphan_paths.contains(&"orphan-2"));
}

#[test]
fn survey_identifies_dense_hubs() {
    let mut nodes = vec![node("hub", "Important node.")];
    for i in 0..6 {
        nodes.push(node(&format!("node-{}", i), "References [[hub]]."));
    }

    let result = survey(&nodes);
    assert_eq!(result.dense_hubs.len(), 1);
    assert_eq!(result.dense_hubs[0], ("hub".to_string(), 6));
}

#[test]
fn survey_with_scope_prefix() {
    // The listing under the scope `projects`.
    let nodes = vec![node("projects/a/goal", "Project A goal."), node("projects/b/goal", "Project B goal.")];

    let result = survey(&nodes);
    assert_eq!(result.stats.node_count, 2);

    let paths: Vec<&str> = result.nodes.iter().map(|n| n.path.as_str()).collect();
    assert!(paths.contains(&"projects/a/goal"));
    assert!(paths.contains(&"projects/b/goal"));
    assert!(!paths.contains(&"global/prefs"));
}

#[test]
fn format_report_produces_markdown() {
    let nodes = vec![node("projects/acme", "Uses [[tools/react]]."), node("tools/react", "# React")];

    let survey_result = survey(&nodes);
    let report = format_report(&survey_result);

    assert!(report.contains("# Vault Survey"));
    assert!(report.contains("## Stats"));
    assert!(report.contains("## Node Index"));
    assert!(report.contains("tools/react"));
    assert!(report.contains("projects/acme"));
}

#[test]
fn survey_report_exact() {
    let nodes = vec![node("a", "[[b]] [[zz]]"), node("b", ""), node("c", "nothing"), node("d/x", "[[c]]")];
    let s = survey(&nodes);
    assert_eq!(s.stats.unique_link_targets, 3);
    assert_eq!(s.sparse_areas, vec![("d".to_string(), 1)]);
    let report = format_report(&s);
    let expected = "# Vault Survey\n\n## Stats\n- 4 nodes\n- 3 unique [[link]] targets\n\
- 0 orphan nodes (no incoming or outgoing links)\n\n## Node Index\n\
- a (2 outgoing, 0 backlinks)\n- b (0 outgoing, 1 backlinks)\n- c (0 outgoing, 1 backlinks)\n\
- d/x (1 outgoing, 0 backlinks)\n\n## Potential Issues\n- Sparse areas: d (1 nodes)\n";
    assert_eq!(report, expected);
}

#[test]
fn survey_unreadable_counts_as_empty_and_hubs_ordered() {
    let mut nodes = vec![NodeContent { path: "gone".to_string(), content: None }];
    for i in 0..7 {
        let content = if i < 5 { "[[h1]] [[h2]]" } else { "[[h2]]" };
        nodes.push(node(&format!("p{}", i), content));
    }
    nodes.push(node("h1", ""));
    nodes.push(node("h2", ""));
    let s = survey(&nodes);
    assert_eq!(s.orphans, vec!["gone"]);
    assert_eq!(s.dense_hubs, vec![("h2".to_string(), 7), ("h1".to_string(), 5)]);
    let report = format_report(&s);
    assert!(report.contains("- Dense hubs: h2 (7 backlinks), h1 (5 backlinks) — consider if it should be split\n"));
    assert!(report.contains("- h2 (0 outgoing, 7 backlinks) ← heavily referenced\n"));
    assert!(report.contains("- gone (0 outgoing, 0 backlinks) ← ORPHAN\n"));
}
