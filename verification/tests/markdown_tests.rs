use openmem::link::{backlinks, parse_links};
use openmem::node::NodeContent;
use openmem::tags::{build_tag_index, find_by_tag, format_tag_index, get_node_tags, list_tags, parse_tags, TagIndex};

fn node(path: &str, content: &str) -> NodeContent {
    NodeContent { path: path.to_string(), content: Some(content.to_string()) }
}

// ==========================================
// parse_links tests
// ==========================================

#[test]
fn parse_single_link() {
    let content = "This references [[global/user-prefs]].";
    let links = parse_links(content);
    assert_eq!(links, vec!["global/user-prefs"]);
}

#[test]
fn parse_multiple_links() {
    let content = "Uses [[tools/react]] and [[tools/rust]] with [[global/coding-standards]].";
    let links = parse_links(content);
    assert_eq!(
        links,
        vec!["global/coding-standards", "tools/react", "tools/rust"]
    );
}

#[test]
fn parse_no_links() {
    let content = "No links here. Just plain text.\n\nWith multiple paragraphs.";
    let links = parse_links(content);
    assert!(links.is_empty());
}

#[test]
fn parse_duplicate_links_deduplicated() {
    let content = "See [[tools/react]] and also [[tools/react]] again.";
    let links = parse_links(content);
    assert_eq!(links, vec!["tools/react"]);
}

#[test]
fn parse_nested_path_link() {
    let content = "Check [[projects/acme/frontend/components]].";
    let links = parse_links(content);
    assert_eq!(links, vec!["projects/acme/frontend/components"]);
}

#[test]
fn parse_links_in_multiline_content() {
    let content = "\
# Project Acme

## Stack
- Frontend: [[tools/react]] with TypeScript
- Backend: [[tools/rust]] with Actix-web

## Related
- See [[projects/acme/migration-plan]] for details.
";
    let links = parse_links(content);
    assert_eq!(
        links,
        vec!["projects/acme/migration-plan", "tools/react", "tools/rust"]
    );
}

// ==========================================
// backlinks tests
// ==========================================

#[test]
fn backlinks_finds_linking_nodes() {
    let all = vec![
        node("projects/acme/backend", "Uses [[tools/rust]]."),
        node("projects/acme/frontend", "Uses [[tools/react]] and TypeScript."),
        node("projects/blog/frontend", "Also uses [[tools/react]]."),
        node("tools/react", "# React\nA frontend framework."),
    ];
    let result = backlinks(&all, "tools/react");
    assert_eq!(
        result,
        vec!["projects/acme/frontend", "projects/blog/frontend"]
    );
}

#[test]
fn backlinks_no_incoming_links_returns_empty() {
    let all = vec![node("isolated-node", "No one links to me."), node("other-node", "Just some text.")];
    let result = backlinks(&all, "isolated-node");
    assert!(result.is_empty());
}

#[test]
fn backlinks_excludes_self_reference() {
    let all = vec![node("self-ref", "I reference myself: [[self-ref]]. Weird.")];
    let result = backlinks(&all, "self-ref");
    assert!(result.is_empty());
}

#[test]
fn backlinks_empty_vault_returns_empty() {
    let result = backlinks(&Vec::new(), "nonexistent");
    assert!(result.is_empty());
}

#[test]
fn parse_links_shortest_target_on_one_line() {
    assert_eq!(parse_links("[[a]] [[b]]"), vec!["a", "b"]);
    assert_eq!(parse_links("[[a\nb]] [[c]]"), vec!["c"]);
    assert_eq!(parse_links("[[]] [[x]]]"), vec!["]] [[x"]);
}

#[test]
fn backlinks_sorted_and_skip_unreadable() {
    let all = vec![
        node("z", "[[t]]"),
        NodeContent { path: "m".to_string(), content: None },
        node("a", "see [[t]]"),
    ];
    assert_eq!(backlinks(&all, "t"), vec!["a", "z"]);
}

// ==========================================
// tags tests
// ==========================================

#[test]
fn parse_single_tag() {
    let content = "This is about #rust programming.";
    let tags = parse_tags(content);
    assert_eq!(tags, vec!["rust"]);
}

#[test]
fn parse_multiple_tags() {
    let content = "Using #rust with #react and #typescript.";
    let tags = parse_tags(content);
    assert_eq!(tags, vec!["react", "rust", "typescript"]);
}

#[test]
fn parse_no_tags() {
    let content = "No tags here, just plain text.\n\nWith multiple lines.";
    let tags = parse_tags(content);
    assert!(tags.is_empty());
}

#[test]
fn parse_tags_deduplicates() {
    let content = "We use #rust and also #rust again.";
    let tags = parse_tags(content);
    assert_eq!(tags, vec!["rust"]);
}

#[test]
fn parse_tags_with_hyphens() {
    let content = "Working on #project-acme with #my-feature.";
    let tags = parse_tags(content);
    assert_eq!(tags, vec!["my-feature", "project-acme"]);
}

#[test]
fn parse_tags_ignores_headings() {
    let content = "# Heading One\n\n## Heading Two\n\n#not-heading tag";
    let tags = parse_tags(content);
    // The #not-heading should be parsed because it's not a heading (no space after #)
    assert_eq!(tags, vec!["not-heading"]);
}

#[test]
fn parse_tags_ignores_code_blocks() {
    let content = "Some #visible tag.\n\n```rust\nlet x = #ignored;\n```\n\nAnother #tag.";
    let tags = parse_tags(content);
    assert_eq!(tags, vec!["tag", "visible"]);
}

#[test]
fn parse_tags_ignores_numbers_start() {
    // Tags must start with letter or underscore
    let content = "Not a tag #123 but #_123 is valid.";
    let tags = parse_tags(content);
    assert_eq!(tags, vec!["_123"]);
}

#[test]
fn find_by_tag_finds_nodes() {
    let all = vec![
        node("node-a", "About #rust programming."),
        node("node-b", "Also about #rust and #cli."),
        node("node-c", "No tags here."),
    ];

    let results = find_by_tag(&all, "rust");
    assert_eq!(results, vec!["node-a", "node-b"]);

    let results = find_by_tag(&all, "cli");
    assert_eq!(results, vec!["node-b"]);
}

#[test]
fn find_by_tag_with_hash_prefix() {
    let all = vec![node("node-a", "Tagged #rust.")];

    let results = find_by_tag(&all, "#rust");
    assert_eq!(results, vec!["node-a"]);
}

#[test]
fn list_tags_returns_counts() {
    let all = vec![node("node-a", "#rust #cli"), node("node-b", "#rust #web")];

    let tags = list_tags(&all);
    assert_eq!(tags, vec![
        ("cli".to_string(), 1),
        ("rust".to_string(), 2),
        ("web".to_string(), 1),
    ]);
}

#[test]
fn get_node_tags_extracts_tags() {
    let tags = get_node_tags("Using #rust and #cli here.");
    assert_eq!(tags, vec!["cli", "rust"]);
}

#[test]
fn test_build_tag_index() {
    let all = vec![node("a", "#rust #cli"), node("b", "#rust #web")];

    let index = build_tag_index(&all);

    assert_eq!(index.get("rust"), Some(&vec!["a".to_string(), "b".to_string()]));
    assert_eq!(index.get("cli"), Some(&vec!["a".to_string()]));
    assert_eq!(index.get("web"), Some(&vec!["b".to_string()]));
}

#[test]
fn format_tag_index_output() {
    let mut index = TagIndex::new();
    index.insert("rust".to_string(), vec!["a".to_string(), "b".to_string()]);
    index.insert("cli".to_string(), vec!["a".to_string()]);

    let output = format_tag_index(&index);

    assert!(output.contains("#cli (1 node)"));
    assert!(output.contains("#rust (2 nodes)"));
    assert!(output.contains("  - a"));
    assert!(output.contains("  - b"));
}

#[test]
fn tag_index_insert_replaces_and_returns_old() {
    let mut index = TagIndex::new();
    assert!(index.is_empty());
    assert_eq!(index.insert("t".to_string(), vec!["a".to_string()]), None);
    assert_eq!(index.insert("t".to_string(), vec!["b".to_string()]), Some(vec!["a".to_string()]));
    assert_eq!(index.len(), 1);
    assert_eq!(index.get("t"), Some(&vec!["b".to_string()]));
    assert_eq!(index.get("u"), None);
}

#[test]
fn find_by_tag_same_with_or_without_hash() {
    let all = vec![node("x", "#go #rust"), node("y", "#rust")];
    assert_eq!(find_by_tag(&all, "rust"), find_by_tag(&all, "#rust"));
}
