//! `[[path/to/node]]` links between nodes.
use vstd::prelude::*;

use crate::node::NodeContent;
use crate::text::{
    contains_sub, dedup_adjacent, dedup_strings, find_sub, sort_by_insertion, sort_strings,
    string_of, text_before, to_chars,
};

verus! {

// ---------------------------------------------------------------------
// The link grammar
// ---------------------------------------------------------------------

/// Where the shortest `]]` after a link body that began before `p` starts,
/// when the body reaches it without crossing a newline: the lazy `.+?\]\]`.
pub open spec fn link_close(s: Seq<char>, p: int) -> Option<int>
    decreases s.len() - p,
{
    if p < 0 || p >= s.len() {
        None
    } else if p + 1 < s.len() && s[p] == ']' && s[p + 1] == ']' {
        Some(p)
    } else if s[p] == '\n' {
        None
    } else {
        link_close(s, p + 1)
    }
}

pub proof fn lemma_link_close(s: Seq<char>, p: int)
    requires
        0 <= p,
    ensures
        link_close(s, p) matches Some(k) ==> p <= k && k + 1 < s.len() && s[k] == ']' && s[k + 1]
            == ']',
    decreases s.len() - p,
{
    if 0 <= p < s.len() && !(p + 1 < s.len() && s[p] == ']' && s[p + 1] == ']') && s[p] != '\n' {
        lemma_link_close(s, p + 1);
    }
}

/// A link whose `[[` stands at `i` ends its body at `k`.
pub open spec fn link_at(s: Seq<char>, i: int) -> Option<int> {
    if 0 <= i && i + 2 < s.len() && s[i] == '[' && s[i + 1] == '[' && s[i + 2] != '\n' {
        link_close(s, i + 3)
    } else {
        None
    }
}

/// The link targets that `\[\[(.+?)\]\]` captures in `s[i..]`, left to right,
/// each search resuming after the previous match.
pub open spec fn link_targets_from(s: Seq<char>, i: int) -> Seq<Seq<char>>
    decreases s.len() - i,
{
    if i < 0 || i >= s.len() {
        Seq::empty()
    } else {
        match link_at(s, i) {
            Some(k) => {
                proof {
                    lemma_link_close(s, i + 3);
                }
                seq![s.subrange(i + 2, k)] + link_targets_from(s, k + 2)
            },
            None => link_targets_from(s, i + 1),
        }
    }
}

/// The links of a text: each target once, in ascending order.
pub open spec fn links_of(content: Seq<char>) -> Seq<Seq<char>> {
    dedup_adjacent(sort_by_insertion(link_targets_from(content, 0), text_before()))
}

/// The shortest `]]` from `p` on, unless a newline comes first.
fn find_close(s: &Vec<char>, p: usize) -> (res: Option<usize>)
    requires
        p <= s@.len(),
    ensures
        match res {
            Some(k) => link_close(s@, p as int) == Some(k as int),
            None => link_close(s@, p as int) is None,
        },
{
    let n = s.len();
    let mut q = p;
    while q < n
        invariant
            p <= q <= n,
            n == s@.len(),
            link_close(s@, p as int) == link_close(s@, q as int),
        decreases n - q,
    {
        if q + 1 < n && s[q] == ']' && s[q + 1] == ']' {
            return Some(q);
        } else if s[q] == '\n' {
            return None;
        }
        q += 1;
    }
    None
}

/// Extract all `[[path/to/node]]` link targets from markdown content.
/// Returns a deduplicated, sorted list of link targets.
pub fn parse_links(content: &str) -> (res: Vec<String>)
    ensures
        res.deep_view() == links_of(content@),
{
    let s = to_chars(content);
    let n = s.len();
    let mut found: Vec<String> = Vec::new();
    let mut i: usize = 0;
    while i < n
        invariant
            n == s@.len(),
            s@ == content@,
            i <= n + 1,
            found.deep_view() + link_targets_from(s@, i as int) == link_targets_from(s@, 0),
        decreases n + 1 - i,
    {
        let close: Option<usize> = if n - i > 2 && s[i] == '[' && s[i + 1] == '[' && s[i + 2] != '\n' {
            find_close(&s, i + 3)
        } else {
            None
        };
        proof {
            lemma_link_close(s@, i + 3);
            if i + 2 < n && s@[i as int] == '[' && s@[i + 1] == '[' && s@[i + 2] != '\n' {
                assert(link_at(s@, i as int) == link_close(s@, i + 3));
            } else {
                assert(link_at(s@, i as int) is None);
            }
        }
        match close {
            Some(k) => {
                assert(link_at(s@, i as int) == Some(k as int));
                let target = string_of(&s, i + 2, k);
                assert(link_targets_from(s@, i as int) =~= seq![target@] + link_targets_from(s@, k + 2));
                let ghost old_dv = found.deep_view();
                found.push(target);
                assert(found.deep_view() =~= old_dv.push(s@.subrange(i + 2, k as int)));
                i = k + 2;
            },
            None => {
                assert(link_targets_from(s@, i as int) == link_targets_from(s@, i + 1));
                i += 1;
            },
        }
    }
    assert(link_targets_from(s@, i as int) =~= Seq::<Seq<char>>::empty());
    assert(found.deep_view() =~= link_targets_from(s@, 0));
    let sorted = sort_strings(found);
    dedup_strings(sorted)
}


// ---------------------------------------------------------------------
// Backlinks
// ---------------------------------------------------------------------

/// The text `[[node_path]]` that a link to `node_path` is written as.
pub open spec fn link_text(node_path: Seq<char>) -> Seq<char> {
    "[["@ + node_path + "]]"@
}

/// Node `e` is another node whose text holds a link to `node_path`.
pub open spec fn links_to(e: NodeContent, node_path: Seq<char>) -> bool {
    &&& e.path@ != node_path
    &&& e.text() matches Some(c) && contains_sub(c, link_text(node_path))
}

/// Paths of the nodes of `nodes` that link to `node_path`, in listing order.
pub open spec fn backlink_sources(nodes: Seq<NodeContent>, node_path: Seq<char>) -> Seq<Seq<char>>
    decreases nodes.len(),
{
    if nodes.len() == 0 {
        Seq::empty()
    } else {
        let r = backlink_sources(nodes.drop_last(), node_path);
        if links_to(nodes.last(), node_path) {
            r.push(nodes.last().path@)
        } else {
            r
        }
    }
}

/// The text `[[node_path]]` as characters.
pub fn link_text_chars(node_path: &str) -> (res: Vec<char>)
    ensures
        res@ == link_text(node_path@),
{
    let mut s = String::from_str("[[");
    s.append(node_path);
    s.append("]]");
    to_chars(s.as_str())
}

/// Find all nodes of the vault listing `all` that contain `[[node_path]]`
/// links to the given node. Self-references do not count. Returns the
/// linking node paths, sorted.
pub fn backlinks(all: &Vec<NodeContent>, node_path: &str) -> (res: Vec<String>)
    ensures
        res.deep_view() == sort_by_insertion(backlink_sources(all@, node_path@), text_before()),
{
    let target = link_text_chars(node_path);
    let me = String::from_str(node_path);
    let mut results: Vec<String> = Vec::new();
    let mut i: usize = 0;
    assert(all@.take(0) =~= Seq::<NodeContent>::empty());
    while i < all.len()
        invariant
            i <= all@.len(),
            target@ == link_text(node_path@),
            me@ == node_path@,
            results.deep_view() == backlink_sources(all@.take(i as int), node_path@),
        decreases all@.len() - i,
    {
        let e = &all[i];
        assert(all@.take(i + 1).drop_last() =~= all@.take(i as int));
        assert(all@.take(i + 1).last() == *e);
        if e.path != me {
            match &e.content {
                Some(c) => {
                    let cs = to_chars(c.as_str());
                    if find_sub(&cs, &target) {
                        let ghost old_dv = results.deep_view();
                        results.push(e.path.clone());
                        assert(results.deep_view() =~= old_dv.push(e.path@));
                    }
                },
                None => {},
            }
        }
        i += 1;
    }
    assert(all@.take(all@.len() as int) =~= all@);
    sort_strings(results)
}

} // verus!
