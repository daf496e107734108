//! The markdown grammars of the library against the same grammars written
//! as regular expressions with the `regex` crate, on many generated texts.
use openmem::link::parse_links;
use openmem::structured::{outline, parse};
use openmem::tags::parse_tags;
use regex::Regex;

/// A small deterministic generator of texts over an alphabet rich in the
/// characters the grammars care about.
struct Texts {
    state: u64,
}

impl Texts {
    fn next_u64(&mut self) -> u64 {
        self.state = self.state.wrapping_mul(6364136223846793005).wrapping_add(1442695040888963407);
        self.state >> 33
    }

    fn text(&mut self, max_len: usize) -> String {
        const ALPHABET: [&str; 24] = [
            "[", "]", "[[", "]]", "#", "# ", "## ", "\n", "\r\n", " ", "\t", "a", "b", "Z", "_", "-", "1",
            "```", "~~~", "é", "x/y", "  ", "####### ", "*",
        ];
        let n = (self.next_u64() as usize) % max_len;
        let mut s = String::new();
        for _ in 0..n {
            s.push_str(ALPHABET[(self.next_u64() as usize) % ALPHABET.len()]);
        }
        s
    }
}

fn regex_links(content: &str) -> Vec<String> {
    let re = Regex::new(r"\[\[(.+?)\]\]").unwrap();
    let mut found: Vec<String> = re.captures_iter(content).map(|c| c[1].to_string()).collect();
    found.sort();
    found.dedup();
    found
}

fn is_fence(line: &str) -> bool {
    let t = line.trim_start();
    t.starts_with("```") || t.starts_with("~~~")
}

fn regex_tags(content: &str) -> Vec<String> {
    let re = Regex::new(r"#([a-zA-Z_][a-zA-Z0-9_-]*)").unwrap();
    let mut found: Vec<String> = Vec::new();
    let mut fenced = false;
    for line in content.lines() {
        if is_fence(line) {
            fenced = !fenced;
            continue;
        }
        let t = line.trim_start();
        if fenced || (t.starts_with('#') && t.chars().nth(1) == Some(' ')) {
            continue;
        }
        for c in re.captures_iter(line) {
            if !found.contains(&c[1].to_string()) {
                found.push(c[1].to_string());
            }
        }
    }
    found.sort();
    found
}

/// The headings of a text in order, with their levels, after the root.
fn regex_outline(name: &str, content: &str) -> Vec<(u8, String)> {
    let re = Regex::new(r"^(#{1,6})\s+(.+)$").unwrap();
    let mut items = vec![(0u8, name.to_string())];
    let mut fenced = false;
    for line in content.lines() {
        if is_fence(line) {
            fenced = !fenced;
            continue;
        }
        if fenced {
            continue;
        }
        if let Some(c) = re.captures(line) {
            items.push((c[1].len() as u8, c[2].trim().to_string()));
        }
    }
    items
}

#[test]
fn links_agree_with_regex() {
    let mut texts = Texts { state: 1 };
    for _ in 0..4000 {
        let t = texts.text(30);
        assert_eq!(parse_links(&t), regex_links(&t), "text {:?}", t);
    }
}

#[test]
fn tags_agree_with_regex() {
    let mut texts = Texts { state: 2 };
    for _ in 0..4000 {
        let t = texts.text(30);
        assert_eq!(parse_tags(&t), regex_tags(&t), "text {:?}", t);
    }
}

#[test]
fn headings_agree_with_regex() {
    let mut texts = Texts { state: 3 };
    for _ in 0..4000 {
        let t = texts.text(30);
        assert_eq!(outline(&parse("doc", &t)), regex_outline("doc", &t), "text {:?}", t);
    }
}
