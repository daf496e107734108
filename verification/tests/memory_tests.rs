use openmem::hippocampus::{build_extraction_prompt, execute_extraction, find_relevant_nodes, ExtractionOp};
use openmem::index::{
    date_of, generate_index, index_document, index_excerpts_fit, index_exists, update_index, update_index_at, INDEX_PATH,
};
use openmem::link::parse_links;
use openmem::node::NodeContent;

fn node(path: &str, content: &str) -> NodeContent {
    NodeContent { path: path.to_string(), content: Some(content.to_string()) }
}

/// The reads of the nodes a session links to, within a vault listing.
fn linked_reads(session: &str, vault: &[NodeContent]) -> Vec<NodeContent> {
    parse_links(session)
        .into_iter()
        .map(|l| {
            let content = vault.iter().find(|n| n.path == l).and_then(|n| n.content.clone());
            NodeContent { path: l, content }
        })
        .collect()
}

fn under(prefix: &str, vault: &[NodeContent]) -> Vec<NodeContent> {
    vault
        .iter()
        .filter(|n| n.path.starts_with(prefix))
        .map(|n| NodeContent { path: n.path.clone(), content: n.content.clone() })
        .collect()
}

// ==========================================
// hippocampus
// ==========================================

#[test]
fn build_prompt_includes_session() {
    let session = "User: I prefer dark mode.\nAssistant: Got it!";
    let prompt = build_extraction_prompt(session, &Vec::new(), &Vec::new());

    assert!(prompt.contains("# Memory Extraction Task"));
    assert!(prompt.contains("User: I prefer dark mode"));
    assert!(prompt.contains("## Extraction Instructions"));
}

#[test]
fn build_prompt_includes_relevant_nodes() {
    let vault = vec![
        node("global/user-prefs", "Prefers vim over emacs."),
        node("tools/vim", "# Vim\nA text editor mentioned in [[global/user-prefs]]."),
    ];
    let session = "We should use [[tools/vim]] for editing.";
    let prompt = build_extraction_prompt(session, &linked_reads(session, &vault), &under("global/", &vault));

    // Should include the linked node
    assert!(prompt.contains("tools/vim"));
    assert!(prompt.contains("A text editor"));
    // Should include global nodes
    assert!(prompt.contains("global/user-prefs"));
    assert!(prompt.contains("Prefers vim"));
}

#[test]
fn find_relevant_nodes_includes_linked_nodes() {
    let vault = vec![node("tools/react", "React framework."), node("tools/vue", "Vue framework.")];
    let session = "Let's use [[tools/react]] for this project.";
    let relevant = find_relevant_nodes(&linked_reads(session, &vault), &under("global/", &vault));

    assert_eq!(relevant.len(), 1);
    assert_eq!(relevant[0].0, "tools/react");
}

#[test]
fn find_relevant_nodes_includes_global_nodes() {
    let vault = vec![node("global/user-prefs", "User preferences."), node("projects/acme", "Project info.")];
    let session = "Working on something new.";
    let relevant = find_relevant_nodes(&linked_reads(session, &vault), &under("global/", &vault));

    // Should include global nodes but not project nodes
    assert_eq!(relevant.len(), 1);
    assert_eq!(relevant[0].0, "global/user-prefs");
}

#[test]
fn find_relevant_nodes_no_duplicates_and_missing_links() {
    let vault = vec![node("global/a", "A.")];
    let session = "See [[global/a]] and [[missing]].";
    let relevant = find_relevant_nodes(&linked_reads(session, &vault), &under("global/", &vault));
    assert_eq!(relevant, vec![("global/a".to_string(), "A.".to_string())]);
}

#[test]
fn execute_extraction_writes_nodes() {
    let ops = vec![
        ExtractionOp::Write {
            path: "global/test".to_string(),
            content: "Test content.".to_string(),
        },
        ExtractionOp::Write {
            path: "projects/demo".to_string(),
            content: "Demo content.".to_string(),
        },
    ];

    let writes = execute_extraction(&ops);
    assert_eq!(writes.len(), 2);

    assert_eq!(writes[0].path, "global/test");
    assert_eq!(writes[0].content, "Test content.");
    assert_eq!(writes[1].path, "projects/demo");
    assert_eq!(writes[1].content, "Demo content.");
}

#[test]
fn execute_extraction_skip_does_nothing() {
    let ops = vec![ExtractionOp::Skip {
        reason: "Nothing to store.".to_string(),
    }];

    let writes = execute_extraction(&ops);
    assert_eq!(writes.len(), 0);
}

#[test]
fn execute_extraction_update_overwrites() {
    let ops = vec![ExtractionOp::Update {
        path: "global/p".to_string(),
        section: "## S".to_string(),
        content: "New.".to_string(),
    }];
    let writes = execute_extraction(&ops);
    assert_eq!(writes.len(), 1);
    assert_eq!(writes[0].path, "global/p");
    assert_eq!(writes[0].content, "New.");
}

// ==========================================
// index
// ==========================================

#[test]
fn generate_index_includes_global_nodes() {
    let vault = vec![
        node("global/agent-rules", "# Agent Rules\nAlways test code."),
        node("global/user-prefs", "# User Prefs\nPrefers dark mode."),
    ];

    let index = generate_index(&vault, &vault);

    assert!(index.contains("# Memory Index"));
    assert!(index.contains("## Global"));
    assert!(index.contains("[[global/user-prefs]]"));
    assert!(index.contains("[[global/agent-rules]]"));
}

#[test]
fn generate_index_includes_projects() {
    let vault = vec![
        node("projects/acme/goal", "# Goal\nBuild the thing."),
        node("projects/acme/status", "# Status\nIn progress."),
        node("projects/blog/goal", "# Goal\nWrite posts."),
    ];

    let index = generate_index(&vault, &vault);

    assert!(index.contains("## Projects"));
    assert!(index.contains("### acme"));
    assert!(index.contains("### blog"));
    assert!(index.contains("[[projects/acme/goal]]"));
}

#[test]
fn generate_index_includes_tags() {
    let vault = vec![node("node-a", "About #rust and #cli."), node("node-b", "More #rust content.")];

    let index = generate_index(&vault, &vault);

    assert!(index.contains("## Tags"));
    assert!(index.contains("#rust"));
}

#[test]
fn generate_index_includes_orphans() {
    let vault = vec![node("linked-node", "Links to [[other]]."), node("orphan-node", "No links here.")];

    let index = generate_index(&vault, &vault);

    assert!(index.contains("## Orphans"));
    assert!(index.contains("[[orphan-node]]"));
}

#[test]
fn update_index_writes_node() {
    let (write, message) = update_index(&Vec::new());
    assert_eq!(message, "Updated: global/index");
    assert_eq!(write.path, "global/index");
    assert!(write.content.contains("# Memory Index"));
}

#[test]
fn index_exists_checks() {
    assert!(!index_exists(&Vec::new()));
    let vault = vec![node("global/index", "Index content.")];
    assert!(index_exists(&vault));
    assert_eq!(INDEX_PATH, "global/index");
}

#[test]
fn generate_index_with_scope() {
    let vault = vec![
        node("global/prefs", "Global."),
        node("projects/a/node", "Project A."),
        node("projects/b/node", "Project B."),
    ];
    let scoped = under("projects/a/", &vault);

    let index = generate_index(&scoped, &vault);

    assert!(index.contains("projects/a/node"));
    assert!(!index.contains("projects/b/node"));
}

#[test]
fn index_document_exact() {
    let vault = vec![
        node("global/prefs", "# Prefs\n\n- - * Dark mode everywhere"),
        node("notes", "#rust #cli and #rust again"),
        node("projects/acme/goal", "[[notes]]"),
    ];
    let doc = index_document(&vault, &vault, "2024-01-01");
    let expected = "# Memory Index\n\n> Auto-generated vault overview. Last updated: 2024-01-01\n\n\
**3 nodes** in vault\n\n## Global\n\n- [[global/prefs]] — Dark mode everywhere\n\n\
## Projects\n\n### acme\n\n- [[projects/acme/goal]] — [[notes]]\n\n\
## Tags\n\n#cli (1 nodes)\n#rust (1 nodes)\n\n\
## Orphans\n\n_Nodes with no incoming or outgoing links._\n\n- [[global/prefs]]\n\n";
    assert_eq!(doc, expected);
}

#[test]
fn index_excerpt_cut_and_fit() {
    let long = "a".repeat(100);
    let vault = vec![node("global/long", &long)];
    assert!(index_excerpts_fit(&vault));
    let doc = index_document(&vault, &vault, "t");
    assert!(doc.contains(&format!("- [[global/long]] — {}...\n", "a".repeat(80))));
    let accented = format!("{}é", "a".repeat(79));
    let bad = vec![node("global/x", &(accented + "zzz"))];
    assert!(!index_excerpts_fit(&bad));
}

#[test]
fn index_tags_ranked_and_limited() {
    let mut vault = Vec::new();
    for i in 0..12 {
        vault.push(node(&format!("n{:02}", i), &format!("#t{:02} #common", i)));
    }
    let doc = index_document(&vault, &vault, "t");
    assert!(doc.contains("## Tags\n\n#common (12 nodes)\n#t00 (1 nodes)\n"));
    assert!(doc.contains("... and 3 more tags\n"));
    assert!(doc.contains("... and 2 more\n"));
}

#[test]
fn date_of_epoch_and_later() {
    assert_eq!(date_of(0), "1970-01-01");
    assert_eq!(date_of(86400 * 31), "1970-02-02");
    assert_eq!(date_of(86400 * 365), "1971-01-01");
}

#[test]
fn update_index_writes_the_generated_index() {
    let vault = vec![node("global/prefs", "Prefs #rust"), node("projects/a/node", "See [[global/prefs]].")];
    let stamp = "2024-01-02 03:04 UTC";
    let (write, message) = update_index_at(&vault, stamp);
    assert_eq!(write.path, INDEX_PATH);
    assert_eq!(write.content, index_document(&vault, &vault, stamp));
    assert!(write.content.contains(stamp));
    assert_eq!(message, "Updated: global/index");
}
