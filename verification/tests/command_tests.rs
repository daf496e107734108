use openmem::node::{list, resolve_path, NodeContent};
use openmem::output::{
    deleted_message, links_output, list_output, no_index_message, outline_output, read_section, split_section_path,
    tags_find_output, tags_list_output, tags_show_output, written_message,
};
use openmem::structured::{outline, parse};
use openmem::vault::{ensure, EnsureStep};
use openmem::vcs::{diff, init, log, run_jj, snapshot, JjRun};
use openmem::error::OpenMemError;

fn node(path: &str, content: &str) -> NodeContent {
    NodeContent { path: path.to_string(), content: Some(content.to_string()) }
}

#[test]
fn list_sorts_and_resolves() {
    let found = vec!["b/x".to_string(), "a".to_string(), "b".to_string()];
    assert_eq!(list(found), vec!["a", "b", "b/x"]);
    assert_eq!(resolve_path("global/prefs"), "global/prefs.md");
}

#[test]
fn list_output_plain_and_sizes() {
    assert_eq!(list_output(&Vec::new(), false), "(no nodes)");
    let nodes = vec![node("a", "hi\nthere"), node("b", &"x".repeat(600))];
    assert_eq!(list_output(&nodes, false), "a\nb");
    assert_eq!(
        list_output(&nodes, true),
        "a (2 lines, ~2 tokens)\nb [S] (1 lines, ~150 tokens)"
    );
}

#[test]
fn links_output_both_directions() {
    let all = vec![node("a", "[[b]]"), node("b", "[[c]] [[a]]"), node("c", "")];
    let out = links_output("[[c]] [[a]]", &all, "b");
    assert_eq!(out, "Outgoing links:\n  → a\n  → c\nBacklinks:\n  ← a\n");
    let none = links_output("", &all, "c2");
    assert_eq!(none, "Outgoing links:\n  (none)\nBacklinks:\n  (none)\n");
}

#[test]
fn outline_output_indents() {
    let doc = parse("doc", "# A\n## B\n# C");
    assert_eq!(outline_output(&outline(&doc)), "doc\n  A\n    B\n  C\n");
}

#[test]
fn tags_outputs() {
    let all = vec![node("a", "#rust #cli"), node("b", "#rust")];
    assert_eq!(tags_list_output(&all), "#cli (1 nodes)\n#rust (2 nodes)");
    assert_eq!(tags_list_output(&Vec::new()), "No tags found.");
    assert_eq!(tags_find_output(&all, "#rust"), "a\nb");
    assert_eq!(tags_find_output(&all, "##go"), "No nodes found with tag #go");
    assert_eq!(tags_show_output("#rust and #cli", "a"), "#cli #rust");
    assert_eq!(tags_show_output("plain", "a"), "No tags in a");
}

#[test]
fn messages() {
    assert_eq!(written_message("p"), "Written: p");
    assert_eq!(deleted_message("p"), "Deleted: p");
    assert_eq!(no_index_message(), "No index found. Run `openmem index update` to create one.");
}

#[test]
fn section_paths() {
    assert_eq!(split_section_path("global/prefs#Stack/Frontend"), ("global/prefs".to_string(), Some("Stack/Frontend".to_string())));
    assert_eq!(split_section_path("global/prefs"), ("global/prefs".to_string(), None));
}

#[test]
fn ensure_steps() {
    assert_eq!(ensure(false, false), EnsureStep::CreateAndInit);
    assert_eq!(ensure(true, false), EnsureStep::InitRepository);
    assert_eq!(ensure(true, true), EnsureStep::Nothing);
}

#[test]
fn jj_arguments() {
    assert_eq!(init(), vec!["git", "init"]);
    assert_eq!(snapshot(), vec!["status"]);
    assert_eq!(log(None), vec!["log", "--no-pager"]);
    assert_eq!(log(Some("tracked")), vec!["log", "--no-pager", "--", "tracked.md"]);
    assert_eq!(diff("abc"), vec!["diff", "--no-pager", "-r", "abc"]);
}

#[test]
fn jj_outcomes() {
    let args = log(None);
    let ok = run_jj(&args, JjRun::Finished { success: true, stdout: "out".to_string(), stderr: String::new() });
    assert_eq!(ok.unwrap(), "out");
    let failed = run_jj(&args, JjRun::Finished { success: false, stdout: String::new(), stderr: "  no repo \n".to_string() });
    match failed {
        Err(OpenMemError::VcsError(m)) => assert_eq!(m, "jj log failed: no repo"),
        _ => panic!("Expected VcsError"),
    }
    let missing = run_jj(&args, JjRun::NotStarted("not found".to_string()));
    match missing {
        Err(OpenMemError::VcsError(m)) => assert_eq!(m, "failed to run jj: not found"),
        _ => panic!("Expected VcsError"),
    }
}

#[test]
fn read_section_of_a_node() {
    let content = "# Project\n\n## Stack\n\nRust and Verus.\n\n## Team\n\nTwo people.";
    assert_eq!(read_section("doc", content).unwrap(), content);
    let stack = read_section("doc#Project/Stack", content).unwrap();
    assert!(stack.contains("Stack"));
    assert!(stack.contains("Rust and Verus."));
    assert!(!stack.contains("Two people."));
    match read_section("doc#Project/Missing", content) {
        Err(openmem::error::OpenMemError::NodeNotFound(p)) => assert_eq!(p, "doc#Project/Missing"),
        other => panic!("unexpected: {:?}", other.map(|_| ())),
    }
}
