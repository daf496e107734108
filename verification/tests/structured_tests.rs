use openmem::structured::{find, outline, parse, render};

// ==========================================
// parse() tests
// ==========================================

#[test]
fn parse_empty_content() {
    let node = parse("empty", "");
    assert_eq!(node.name, "empty");
    assert_eq!(node.level, 0);
    assert_eq!(node.content, "");
    assert!(node.children.is_empty());
}

#[test]
fn parse_body_only_no_headings() {
    let md = "Just some text.\nWith multiple lines.\n\nAnd a blank line.";
    let node = parse("notes", md);
    assert_eq!(node.name, "notes");
    assert!(node.children.is_empty());
    assert!(node.content.contains("Just some text."));
    assert!(node.content.contains("And a blank line."));
}

#[test]
fn parse_single_h1() {
    let md = "# Overview\n\nThis is the overview.";
    let node = parse("doc", md);
    assert_eq!(node.children.len(), 1);
    assert_eq!(node.children[0].name, "Overview");
    assert_eq!(node.children[0].level, 1);
    assert!(node.children[0].content.contains("This is the overview."));
}

#[test]
fn parse_nested_headings() {
    let md = "\
# Project

Overview text.

## Stack

- React
- Rust

### Frontend

React details.

### Backend

Rust details.

## Conventions

Code style notes.";

    let node = parse("acme", md);
    assert_eq!(node.children.len(), 1); // One H1: "Project"

    let project = &node.children[0];
    assert_eq!(project.name, "Project");
    assert!(project.content.contains("Overview text."));
    assert_eq!(project.children.len(), 2); // "Stack" and "Conventions"

    let stack = &project.children[0];
    assert_eq!(stack.name, "Stack");
    assert!(stack.content.contains("- React"));
    assert_eq!(stack.children.len(), 2); // "Frontend" and "Backend"

    assert_eq!(stack.children[0].name, "Frontend");
    assert_eq!(stack.children[1].name, "Backend");

    let conventions = &project.children[1];
    assert_eq!(conventions.name, "Conventions");
    assert!(conventions.content.contains("Code style notes."));
}

#[test]
fn parse_sibling_headings() {
    let md = "\
# First

Content A.

# Second

Content B.

# Third

Content C.";

    let node = parse("doc", md);
    assert_eq!(node.children.len(), 3);
    assert_eq!(node.children[0].name, "First");
    assert_eq!(node.children[1].name, "Second");
    assert_eq!(node.children[2].name, "Third");
}

#[test]
fn parse_skipped_levels() {
    // H1 directly to H3 — H3 should still nest under H1
    let md = "\
# Top

## Middle

Content.

### Deep

Deeply nested.";

    let node = parse("doc", md);
    let top = &node.children[0];
    assert_eq!(top.name, "Top");
    let middle = &top.children[0];
    assert_eq!(middle.name, "Middle");
    let deep = &middle.children[0];
    assert_eq!(deep.name, "Deep");
    assert!(deep.content.contains("Deeply nested."));
}

#[test]
fn parse_content_between_headings() {
    let md = "\
Preamble text.

# Section One

Content of section one.

# Section Two

Content of section two.";

    let node = parse("doc", md);
    assert!(node.content.contains("Preamble text."));
    assert_eq!(node.children.len(), 2);
    assert!(node.children[0].content.contains("Content of section one."));
    assert!(node.children[1].content.contains("Content of section two."));
}

#[test]
fn parse_preserves_code_blocks() {
    let md = "\
# Config

```yaml
# This is NOT a heading
server:
  port: 8080
```

After code block.";

    let node = parse("doc", md);
    let config = &node.children[0];
    assert_eq!(config.name, "Config");
    assert!(config.content.contains("# This is NOT a heading"));
    assert!(config.content.contains("server:"));
    assert!(config.content.contains("After code block."));
    assert!(config.children.is_empty()); // No false children from code block
}

// ==========================================
// find() tests
// ==========================================

#[test]
fn find_top_level_heading() {
    let md = "\
# Overview

Overview text.

# Stack

Stack text.";

    let node = parse("doc", md);
    let found = find(&node, "Stack").unwrap();
    assert_eq!(found.name, "Stack");
    assert!(found.content.contains("Stack text."));
}

#[test]
fn find_nested_heading() {
    let md = "\
# Project

## Stack

### Frontend

React details.";

    let node = parse("doc", md);
    let found = find(&node, "Project/Stack/Frontend").unwrap();
    assert_eq!(found.name, "Frontend");
    assert!(found.content.contains("React details."));
}

#[test]
fn find_nonexistent_returns_none() {
    let md = "# Exists\n\nContent.";
    let node = parse("doc", md);
    assert!(find(&node, "DoesNotExist").is_none());
    assert!(find(&node, "Exists/Nope").is_none());
}

#[test]
fn find_empty_path_returns_root() {
    let md = "# Heading\n\nContent.";
    let node = parse("doc", md);
    let found = find(&node, "").unwrap();
    assert_eq!(found.name, "doc");
}

// ==========================================
// render() tests
// ==========================================

#[test]
fn render_subtree() {
    let md = "\
# Project

Overview.

## Stack

- React
- Rust

## Notes

Some notes.";

    let node = parse("doc", md);
    let stack = find(&node, "Project/Stack").unwrap();
    let rendered = render(stack);
    assert!(rendered.contains("## Stack"));
    assert!(rendered.contains("- React"));
    // Should NOT contain sibling "Notes"
    assert!(!rendered.contains("Notes"));
}

#[test]
fn render_leaf_node() {
    let md = "# Leaf\n\nJust content.";
    let node = parse("doc", md);
    let leaf = find(&node, "Leaf").unwrap();
    let rendered = render(leaf);
    assert!(rendered.contains("# Leaf"));
    assert!(rendered.contains("Just content."));
}

// ==========================================
// outline() tests
// ==========================================

#[test]
fn outline_returns_level_name_pairs() {
    let md = "\
# First

## Nested

# Second";

    let node = parse("doc", md);
    let items = outline(&node);
    assert_eq!(items[0], (0, "doc".to_string()));
    assert_eq!(items[1], (1, "First".to_string()));
    assert_eq!(items[2], (2, "Nested".to_string()));
    assert_eq!(items[3], (1, "Second".to_string()));
}

#[test]
fn outline_empty_doc() {
    let node = parse("empty", "");
    let items = outline(&node);
    assert_eq!(items.len(), 1); // just the root
    assert_eq!(items[0], (0, "empty".to_string()));
}

#[test]
fn heading_needs_space_and_text() {
    let node = parse("doc", "#NoSpace\n####### Seven\n# A\n#  Padded  ");
    assert_eq!(node.children.len(), 2);
    assert_eq!(node.children[0].name, "A");
    assert_eq!(node.children[1].name, "Padded");
    assert!(node.content.contains("#NoSpace"));
    assert!(node.content.contains("####### Seven"));
}

#[test]
fn render_root_round_trip() {
    let node = parse("doc", "# A\n\nText.\n\n## B\n\nMore.");
    let rendered = render(&node);
    assert!(rendered.contains("# A"));
    assert!(rendered.contains("## B"));
    assert!(rendered.contains("More."));
}
