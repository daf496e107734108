use openmem::link::{backlinks, parse_links};
use openmem::node::NodeContent;
use openmem::output::tags_list_output;
use openmem::search::{search, SearchOptions};
use openmem::size::vault_stats;
use openmem::survey::survey;
use openmem::tags::list_tags;

fn node(path: &str, content: &str) -> NodeContent {
    NodeContent { path: path.to_string(), content: Some(content.to_string()) }
}

#[test]
fn every_link_is_a_backlink() {
    let all = vec![
        node("a", "[[b]] and [[c]]"),
        node("b", "[[c]]"),
        node("c", "[[c]] [[a]]"),
    ];
    for source in &all {
        for target in parse_links(source.content.as_deref().unwrap()) {
            let back = backlinks(&all, &target);
            if target != source.path {
                assert!(back.contains(&source.path), "{} -> {}", source.path, target);
            } else {
                assert!(!back.contains(&target));
            }
        }
    }
}

#[test]
fn search_results_are_lines_of_nodes() {
    let nodes = vec![node("x", "alpha\nbeta\nalphabet"), node("y", "gamma alpha")];
    let results = search(&nodes, "alpha", SearchOptions::default()).unwrap();
    assert_eq!(results.len(), 3);
    for r in &results {
        let n = nodes.iter().find(|n| n.path == r.path).unwrap();
        let line = n.content.as_deref().unwrap().lines().nth(r.line - 1).unwrap();
        assert_eq!(line, r.content);
        assert!(line.contains("alpha"));
    }
}

#[test]
fn survey_nodes_sorted_and_orphans_exact() {
    let nodes = vec![node("c", "[[a]]"), node("a", ""), node("b", "none")];
    let s = survey(&nodes);
    let paths: Vec<&str> = s.nodes.iter().map(|n| n.path.as_str()).collect();
    assert_eq!(paths, vec!["a", "b", "c"]);
    for n in &s.nodes {
        assert_eq!(n.is_orphan, n.outgoing_links == 0 && n.backlinks == 0);
    }
    assert_eq!(s.orphans, vec!["b"]);
    assert_eq!(s.stats.orphan_count, s.orphans.len());
}

#[test]
fn size_categories_add_up() {
    let nodes = vec![
        node("a", &"x".repeat(10)),
        node("b", &"x".repeat(700)),
        node("c", &"x".repeat(3000)),
        node("d", &"x".repeat(9000)),
        node("e", &"x".repeat(499)),
    ];
    let st = vault_stats(&nodes);
    assert_eq!(st.tiny_count + st.small_count + st.medium_count + st.large_count, st.node_count);
    assert_eq!(st.tiny_count, 2);
    assert_eq!(st.largest_bytes, 9000);
}

#[test]
fn tag_listing_is_shared() {
    let nodes = vec![node("a", "#x #y"), node("b", "#y")];
    let listing = list_tags(&nodes);
    let printed: Vec<String> = listing.iter().map(|(t, c)| format!("#{} ({} nodes)", t, c)).collect();
    assert_eq!(tags_list_output(&nodes), printed.join("\n"));
}
