//! Markdown as a tree of headings: parsing, lookup by heading path,
//! rendering back to markdown and outlines.
use vstd::prelude::*;

use crate::text::{
    find_char_from, is_whitespace, is_ws, lines, push_char, push_range, range_starts_with,
    skip_ws, skip_ws_back, split_lines, string_of, to_chars, trim, trim_start,
};
use crate::tags::is_fence;

verus! {

/// A structured node parsed from markdown headings.
/// Represents a tree where the file is the root (level 0),
/// H1 headings are level 1 children, H2 are level 2 children, etc.
#[derive(Debug)]
pub struct StructuredNode {
    /// Heading text (or filename for root node).
    pub name: String,
    /// Depth: 0 = file root, 1 = H1, 2 = H2, ..., 6 = H6.
    pub level: u8,
    /// Text between this heading and the next heading (excludes children).
    pub content: String,
    /// Sub-nodes (headings at a deeper level).
    pub children: Vec<StructuredNode>,
}

// ---------------------------------------------------------------------
// The mathematical tree
// ---------------------------------------------------------------------

/// A heading section before nesting: level, heading text and its own content.
pub struct Section {
    pub level: u8,
    pub name: Seq<char>,
    pub content: Seq<char>,
}

/// A node of the heading tree.
pub struct Tree {
    pub level: u8,
    pub name: Seq<char>,
    pub content: Seq<char>,
    pub children: Seq<Tree>,
}

/// The tree that a `StructuredNode` holds.
pub open spec fn tree_of(n: StructuredNode) -> Tree
    decreases n,
{
    Tree {
        level: n.level,
        name: n.name@,
        content: n.content@,
        children: Seq::new(
            n.children@.len(),
            |i: int|
                if 0 <= i < n.children@.len() {
                    tree_of(n.children@[i])
                } else {
                    arbitrary()
                },
        ),
    }
}

/// The trees of a list of nodes.
pub open spec fn trees_of(cs: Seq<StructuredNode>) -> Seq<Tree> {
    Seq::new(cs.len(), |i: int| tree_of(cs[i]))
}

pub proof fn lemma_tree_children(n: StructuredNode)
    ensures
        tree_of(n).children == trees_of(n.children@),
{
    assert(tree_of(n).children =~= trees_of(n.children@));
}

/// End of the block of sections after `i` (below `hi`) that are deeper than `lvl`:
/// the first position whose level is at most `lvl`.
pub open spec fn block_end(s: Seq<Section>, i: int, hi: int, lvl: u8) -> int
    decreases hi - i,
{
    if i < 0 || i >= hi || i >= s.len() || s[i].level <= lvl {
        i
    } else {
        block_end(s, i + 1, hi, lvl)
    }
}

pub proof fn lemma_block_end(s: Seq<Section>, i: int, hi: int, lvl: u8)
    requires
        0 <= i <= hi <= s.len(),
    ensures
        i <= block_end(s, i, hi, lvl) <= hi,
        forall|k: int| i <= k < block_end(s, i, hi, lvl) ==> #[trigger] s[k].level > lvl,
        block_end(s, i, hi, lvl) < hi ==> s[block_end(s, i, hi, lvl)].level <= lvl,
    decreases hi - i,
{
    if i < hi && s[i].level > lvl {
        lemma_block_end(s, i + 1, hi, lvl);
    }
}

/// Cutting the range at a section no deeper than `lvl` leaves the block end unchanged.
pub proof fn lemma_block_end_cut(s: Seq<Section>, i: int, m: int, hi: int, lvl: u8)
    requires
        0 <= i <= m <= hi <= s.len(),
        m == hi || s[m].level <= lvl,
    ensures
        block_end(s, i, m, lvl) == block_end(s, i, hi, lvl),
    decreases m - i,
{
    if i < m && s[i].level > lvl {
        lemma_block_end_cut(s, i + 1, m, hi, lvl);
    }
}

/// Skipping sections deeper than `lvl` leaves the block end unchanged.
pub proof fn lemma_block_end_skip(s: Seq<Section>, i: int, k: int, hi: int, lvl: u8)
    requires
        0 <= i <= k <= hi <= s.len(),
        forall|j: int| i <= j < k ==> #[trigger] s[j].level > lvl,
    ensures
        block_end(s, i, hi, lvl) == block_end(s, k, hi, lvl),
    decreases k - i,
{
    if i < k {
        lemma_block_end_skip(s, i + 1, k, hi, lvl);
    }
}

/// The forest that the sections `s[lo..hi]` nest into: a section's children
/// are the sections after it up to the next one at its level or higher.
pub open spec fn forest(s: Seq<Section>, lo: int, hi: int) -> Seq<Tree>
    decreases hi - lo,
{
    if lo < 0 || lo >= hi || hi > s.len() {
        Seq::empty()
    } else {
        let j = block_end(s, lo + 1, hi, s[lo].level);
        proof {
            lemma_block_end(s, lo + 1, hi, s[lo].level);
        }
        seq![
            Tree {
                level: s[lo].level,
                name: s[lo].name,
                content: s[lo].content,
                children: forest(s, lo + 1, j),
            },
        ] + forest(s, j, hi)
    }
}

/// The sections that a list of (childless) nodes stands for.
pub open spec fn sections_of(nodes: Seq<StructuredNode>) -> Seq<Section> {
    Seq::new(
        nodes.len(),
        |i: int| Section { level: nodes[i].level, name: nodes[i].name@, content: nodes[i].content@ },
    )
}

/// Recursively consume nodes from `nodes[idx..]` that are children of a parent at `parent_level`.
/// A node belongs as a child if its level > parent_level.
/// Stops when it encounters a node at level <= parent_level or runs out of nodes,
/// and returns the children with the position where it stopped.
fn build_children(nodes: &Vec<StructuredNode>, start: usize, parent_level: u8) -> (res: (Vec<
    StructuredNode,
>, usize))
    requires
        start <= nodes@.len(),
    ensures
        res.1 == block_end(sections_of(nodes@), start as int, nodes@.len() as int, parent_level),
        trees_of(res.0@) == forest(sections_of(nodes@), start as int, res.1 as int),
    decreases nodes@.len() - start,
{
    let ghost s = sections_of(nodes@);
    let ghost n = nodes@.len() as int;
    let mut idx = start;
    proof {
        lemma_block_end(s, start as int, n, parent_level);
    }
    let ghost e = block_end(s, start as int, n, parent_level);
    let mut children: Vec<StructuredNode> = Vec::new();
    assert(trees_of(children@) + forest(s, start as int, e) =~= forest(s, start as int, e));
    while idx < nodes.len() && nodes[idx].level > parent_level
        invariant
            s == sections_of(nodes@),
            n == nodes@.len(),
            0 <= start <= idx <= e <= n,
            e == block_end(s, start as int, n, parent_level),
            block_end(s, idx as int, n, parent_level) == e,
            trees_of(children@) + forest(s, idx as int, e) == forest(s, start as int, e),
        decreases n - idx,
    {
        let i = idx;
        let lvl = nodes[i].level;
        assert(s[i as int].level == lvl);
        proof {
            lemma_block_end(s, i as int, n, parent_level);
            lemma_block_end(s, i + 1, e, lvl);
            lemma_block_end(s, i + 1, n, lvl);
            if e < n {
                lemma_block_end_cut(s, i + 1, e, n, lvl);
            } else {
                lemma_block_end_cut(s, i + 1, n, n, lvl);
            }
        }
        let (sub, j) = build_children(nodes, i + 1, lvl);
        proof {
            assert(j as int == block_end(s, i + 1, e, lvl));
            lemma_block_end_skip(s, i as int, j as int, n, parent_level);
        }
        idx = j;
        let child = StructuredNode {
            name: nodes[i].name.clone(),
            level: lvl,
            content: nodes[i].content.clone(),
            children: sub,
        };
        proof {
            lemma_tree_children(child);
            assert(tree_of(child) == Tree {
                level: s[i as int].level,
                name: s[i as int].name,
                content: s[i as int].content,
                children: forest(s, i + 1, j as int),
            });
            assert(forest(s, i as int, e) =~= seq![tree_of(child)] + forest(s, j as int, e));
        }
        let ghost old_children = children@;
        children.push(child);
        proof {
            assert(trees_of(children@) =~= trees_of(old_children).push(tree_of(child)));
            assert(trees_of(children@) + forest(s, j as int, e) =~= trees_of(old_children) + forest(s, i as int, e));
        }
    }
    proof {
        assert(idx == e);
        assert(forest(s, e, e) =~= Seq::<Tree>::empty());
        assert(trees_of(children@) + forest(s, e, e) =~= trees_of(children@));
    }
    (children, idx)
}

/// Build a tree from a flat list of nodes ordered by appearance.
/// A node at level N becomes a child of the nearest preceding node at level < N.
fn build_tree(nodes: Vec<StructuredNode>) -> (res: Vec<StructuredNode>)
    requires
        forall|i: int| 0 <= i < nodes@.len() ==> #[trigger] nodes@[i].level > 0,
    ensures
        trees_of(res@) == forest(sections_of(nodes@), 0, nodes@.len() as int),
{
    let (res, _end) = build_children(&nodes, 0, 0);
    proof {
        let s = sections_of(nodes@);
        assert forall|k: int| 0 <= k < nodes@.len() implies #[trigger] s[k].level > 0 by {
            assert(s[k].level == nodes@[k].level);
        }
        lemma_block_end_all(s, 0, nodes@.len() as int, 0);
    }
    res
}

proof fn lemma_block_end_all(s: Seq<Section>, i: int, hi: int, lvl: u8)
    requires
        0 <= i <= hi <= s.len(),
        forall|k: int| 0 <= k < s.len() ==> #[trigger] s[k].level > lvl,
    ensures
        block_end(s, i, hi, lvl) == hi,
    decreases hi - i,
{
    if i < hi {
        lemma_block_end_all(s, i + 1, hi, lvl);
    }
}


// ---------------------------------------------------------------------
// Headings and the flat parse
// ---------------------------------------------------------------------

/// End of the run of `#` characters of `l` that starts at `i`.
pub open spec fn hash_run(l: Seq<char>, i: int) -> int
    decreases l.len() - i,
{
    if 0 <= i < l.len() && l[i] == '#' {
        hash_run(l, i + 1)
    } else {
        i
    }
}

pub proof fn lemma_hash_run(l: Seq<char>, i: int)
    requires
        0 <= i <= l.len(),
    ensures
        i <= hash_run(l, i) <= l.len(),
        forall|k: int| i <= k < hash_run(l, i) ==> #[trigger] l[k] == '#',
        hash_run(l, i) < l.len() ==> l[hash_run(l, i)] != '#',
    decreases l.len() - i,
{
    if i < l.len() && l[i] == '#' {
        lemma_hash_run(l, i + 1);
    }
}

/// What the pattern `^(#{1,6})\s+(.+)$` makes of a line: the number of `#`
/// and the trimmed heading text. It matches when one to six `#` open the line
/// and are followed by whitespace and at least one more character.
pub open spec fn heading_of(line: Seq<char>) -> Option<(u8, Seq<char>)> {
    let h = hash_run(line, 0);
    if 1 <= h <= 6 && h + 2 <= line.len() && is_ws(line[h]) {
        Some((h as u8, trim(line.skip(h))))
    } else {
        None
    }
}

/// A heading section while its content lines are being collected.
pub struct OpenSection {
    pub level: u8,
    pub name: Seq<char>,
    pub lines: Seq<Seq<char>>,
}

/// What the parser has gathered after some lines: whether it is inside a
/// fenced code block, the text before the first heading, and the sections.
pub struct ParseState {
    pub in_code: bool,
    pub root: Seq<char>,
    pub sections: Seq<OpenSection>,
}

/// A content line goes to the last section, or to the text before the first
/// heading (joined with newlines, a leading empty line leaving no trace).
pub open spec fn push_content(st: ParseState, line: Seq<char>) -> ParseState {
    if st.sections.len() > 0 {
        let last = st.sections.last();
        ParseState {
            sections: st.sections.update(
                st.sections.len() - 1,
                OpenSection { lines: last.lines.push(line), ..last },
            ),
            ..st
        }
    } else if st.root.len() == 0 {
        ParseState { root: line, ..st }
    } else {
        ParseState { root: st.root + seq!['\n'] + line, ..st }
    }
}

/// One line of the parse: fences toggle code blocks and are content, lines in
/// code blocks are content, headings open sections, anything else is content.
pub open spec fn parse_step(st: ParseState, line: Seq<char>) -> ParseState {
    if is_fence(trim_start(line)) {
        push_content(ParseState { in_code: !st.in_code, ..st }, line)
    } else if st.in_code {
        push_content(st, line)
    } else {
        match heading_of(line) {
            Some((lvl, name)) => ParseState {
                sections: st.sections.push(OpenSection { level: lvl, name: name, lines: Seq::empty() }),
                ..st
            },
            None => push_content(st, line),
        }
    }
}

pub open spec fn parse_lines(ls: Seq<Seq<char>>) -> ParseState
    decreases ls.len(),
{
    if ls.len() == 0 {
        ParseState { in_code: false, root: Seq::empty(), sections: Seq::empty() }
    } else {
        parse_step(parse_lines(ls.drop_last()), ls.last())
    }
}

/// Number of `\n` at the end of `s`.
pub open spec fn trailing_newlines(s: Seq<char>) -> nat
    decreases s.len(),
{
    if s.len() > 0 && s.last() == '\n' {
        1 + trailing_newlines(s.drop_last())
    } else {
        0
    }
}

/// `s.trim_end_matches('\n')`.
pub open spec fn trim_newlines(s: Seq<char>) -> Seq<char> {
    s.take(s.len() - trailing_newlines(s))
}

/// The lines joined with `\n`.
pub open spec fn join_lines(ls: Seq<Seq<char>>) -> Seq<char>
    decreases ls.len(),
{
    if ls.len() == 0 {
        Seq::empty()
    } else if ls.len() == 1 {
        ls[0]
    } else {
        join_lines(ls.drop_last()) + seq!['\n'] + ls.last()
    }
}

/// The sections of a markdown text, each with its own content.
pub open spec fn sections_in(markdown: Seq<char>) -> Seq<Section> {
    let st = parse_lines(lines(markdown));
    Seq::new(
        st.sections.len(),
        |i: int|
            Section {
                level: st.sections[i].level,
                name: st.sections[i].name,
                content: trim_newlines(join_lines(st.sections[i].lines)),
            },
    )
}

/// The text of a markdown document before its first heading.
pub open spec fn preamble_of(markdown: Seq<char>) -> Seq<char> {
    trim_newlines(parse_lines(lines(markdown)).root)
}

/// The tree of a markdown document whose root is called `name`.
pub open spec fn document_tree(name: Seq<char>, markdown: Seq<char>) -> Tree {
    let s = sections_in(markdown);
    Tree { level: 0, name: name, content: preamble_of(markdown), children: forest(s, 0, s.len() as int) }
}

proof fn lemma_trailing_newlines(s: Seq<char>)
    ensures
        trailing_newlines(s) <= s.len(),
        forall|k: int| s.len() - trailing_newlines(s) <= k < s.len() ==> #[trigger] s[k] == '\n',
        trailing_newlines(s) < s.len() ==> s[s.len() - trailing_newlines(s) - 1] != '\n',
    decreases s.len(),
{
    if s.len() > 0 && s.last() == '\n' {
        lemma_trailing_newlines(s.drop_last());
        assert forall|k: int| s.len() - trailing_newlines(s) <= k < s.len() implies #[trigger] s[k] == '\n' by {
            if k < s.len() - 1 {
                assert(s[k] == s.drop_last()[k]);
            }
        }
    }
}

proof fn lemma_trailing_newlines_exact(s: Seq<char>, n: int)
    requires
        0 <= n <= s.len(),
        forall|k: int| s.len() - n <= k < s.len() ==> #[trigger] s[k] == '\n',
        n < s.len() ==> s[s.len() - n - 1] != '\n',
    ensures
        trailing_newlines(s) == n,
    decreases n,
{
    if n > 0 {
        let t = s.drop_last();
        assert forall|k: int| t.len() - (n - 1) <= k < t.len() implies #[trigger] t[k] == '\n' by {
            assert(t[k] == s[k]);
        }
        if n - 1 < t.len() {
            assert(t[t.len() - (n - 1) - 1] == s[s.len() - n - 1]);
        }
        lemma_trailing_newlines_exact(t, n - 1);
    }
}

/// `s.trim_end_matches('\n')` as a new string.
fn trim_newlines_exec(s: &String) -> (res: String)
    ensures
        res@ == trim_newlines(s@),
{
    let v = to_chars(s.as_str());
    let mut e = v.len();
    while e > 0 && v[e - 1] == '\n'
        invariant
            e <= v@.len(),
            forall|k: int| e <= k < v@.len() ==> #[trigger] v@[k] == '\n',
        decreases e,
    {
        e -= 1;
    }
    proof {
        lemma_trailing_newlines_exact(v@, v@.len() - e);
    }
    string_of(&v, 0, e)
}

/// The lines joined with `\n`.
fn join_lines_exec(ls: &Vec<String>) -> (res: String)
    ensures
        res@ == join_lines(ls.deep_view()),
{
    let mut out = String::new();
    let mut i: usize = 0;
    assert(ls.deep_view().take(0) =~= Seq::<Seq<char>>::empty());
    while i < ls.len()
        invariant
            i <= ls@.len(),
            out@ == join_lines(ls.deep_view().take(i as int)),
        decreases ls@.len() - i,
    {
        let ghost t = ls.deep_view().take(i + 1);
        assert(t.drop_last() =~= ls.deep_view().take(i as int));
        assert(t.last() == ls@[i as int]@);
        let ghost before = out@;
        if i > 0 {
            push_char(&mut out, '\n');
        } else {
            assert(t =~= seq![ls@[0]@]);
        }
        out.append(ls[i].as_str());
        proof {
            if i > 0 {
                assert(join_lines(t) == join_lines(t.drop_last()) + seq!['\n'] + t.last());
                assert(out@ =~= before + seq!['\n'] + t.last());
            } else {
                assert(join_lines(t) == t[0]);
                assert(out@ =~= t[0]);
            }
        }
        i += 1;
    }
    assert(ls.deep_view().take(ls@.len() as int) =~= ls.deep_view());
    out
}

/// What `heading_of` makes of `line`, computed.
fn heading_exec(line: &Vec<char>) -> (res: Option<(u8, String)>)
    ensures
        match res {
            Some((lvl, name)) => heading_of(line@) == Some((lvl, name@)),
            None => heading_of(line@) is None,
        },
{
    let n = line.len();
    let mut h: usize = 0;
    while h < n && line[h] == '#'
        invariant
            h <= n,
            n == line@.len(),
            forall|k: int| 0 <= k < h ==> #[trigger] line@[k] == '#',
        decreases n - h,
    {
        h += 1;
    }
    proof {
        lemma_hash_run_exact(line@, 0, h as int);
    }
    if 1 <= h && h <= 6 && n - h >= 2 && is_whitespace(line[h]) {
        let a = skip_ws(line, h, n);
        let b = skip_ws_back(line, a, n);
        let name = string_of(line, a, b);
        proof {
            let t = line@.skip(h as int);
            assert(line@.subrange(h as int, n as int) =~= t);
            assert(trim_start(t) =~= line@.subrange(a as int, n as int));
            assert(trim(t) =~= line@.subrange(a as int, b as int));
        }
        Some((h as u8, name))
    } else {
        None
    }
}

proof fn lemma_hash_run_exact(l: Seq<char>, i: int, e: int)
    requires
        0 <= i <= e <= l.len(),
        forall|k: int| i <= k < e ==> #[trigger] l[k] == '#',
        e == l.len() || l[e] != '#',
    ensures
        hash_run(l, i) == e,
    decreases e - i,
{
    if i < e {
        lemma_hash_run_exact(l, i + 1, e);
    }
}

/// A heading section while its content lines are being collected.
struct Entry {
    level: u8,
    name: String,
    lines: Vec<String>,
}

spec fn open_section_of(e: Entry) -> OpenSection {
    OpenSection { level: e.level, name: e.name@, lines: e.lines.deep_view() }
}

spec fn open_sections_of(es: Seq<Entry>) -> Seq<OpenSection> {
    Seq::new(es.len(), |i: int| open_section_of(es[i]))
}

/// Push a content line to the last entry (if any), or to root content.
fn push_content_line(entries: &mut Vec<Entry>, root: &mut String, line: &Vec<char>)
    ensures
        ({
            let after = push_content(
                ParseState { in_code: false, root: old(root)@, sections: open_sections_of(old(entries)@) },
                line@,
            );
            &&& final(root)@ == after.root
            &&& open_sections_of(final(entries)@) == after.sections
        }),
        final(entries)@.len() == old(entries)@.len(),
        forall|i: int| 0 <= i < old(entries)@.len() ==> #[trigger] final(entries)@[i].level == old(entries)@[i].level,
{
    let ghost before = ParseState { in_code: false, root: root@, sections: open_sections_of(entries@) };
    if entries.len() > 0 {
        let ghost old_entries = entries@;
        let mut last = entries.pop().unwrap();
        let ghost old_last = last;
        last.lines.push(string_of(line, 0, line.len()));
        proof {
            assert(line@.subrange(0, line@.len() as int) =~= line@);
            assert(last.lines.deep_view() =~= old_last.lines.deep_view().push(line@));
        }
        entries.push(last);
        proof {
            assert(entries@ =~= old_entries.update(old_entries.len() - 1, last));
            assert(open_sections_of(entries@) =~= push_content(before, line@).sections);
        }
    } else {
        if !root.as_str().is_empty() {
            push_char(root, '\n');
        }
        push_range(root, line, 0, line.len());
        proof {
            assert(line@.subrange(0, line@.len() as int) =~= line@);
            if before.root.len() == 0 {
                assert(root@ =~= line@);
            }
        }
    }
}

/// Parse a full markdown string into a `StructuredNode` tree.
///
/// The root node (level 0) has `name` set to the given `name` argument.
/// Any text before the first heading becomes the root's `content`.
/// Headings (`# H1`, `## H2`, etc.) create child nodes. A heading at
/// level N becomes a child of the nearest preceding heading at level < N.
///
/// Lines inside fenced code blocks (``` or ~~~) are never treated as headings.
pub fn parse(name: &str, markdown: &str) -> (res: StructuredNode)
    ensures
        tree_of(res) == document_tree(name@, markdown@),
{
    let chars = to_chars(markdown);
    let ls = split_lines(&chars);
    let ghost lsv = ls.deep_view();
    let mut root = String::new();
    let mut entries: Vec<Entry> = Vec::new();
    let mut in_code_block = false;
    let mut k: usize = 0;
    assert(lsv.take(0) =~= Seq::<Seq<char>>::empty());
    assert(open_sections_of(entries@) =~= Seq::<OpenSection>::empty());
    assert(root@ =~= Seq::<char>::empty());
    while k < ls.len()
        invariant
            lsv == ls.deep_view(),
            lsv == lines(markdown@),
            k <= ls@.len(),
            parse_lines(lsv.take(k as int)) == (ParseState {
                in_code: in_code_block,
                root: root@,
                sections: open_sections_of(entries@),
            }),
            forall|i: int| 0 <= i < entries@.len() ==> 1 <= #[trigger] entries@[i].level,
        decreases ls@.len() - k,
    {
        let line = &ls[k];
        let ghost lv = line@;
        let ghost st = parse_lines(lsv.take(k as int));
        assert(lv == lsv[k as int]);
        assert(lsv.take(k + 1).drop_last() =~= lsv.take(k as int));
        assert(lsv.take(k + 1).last() == lv);
        let n = line.len();
        let t = skip_ws(line, 0, n);
        proof {
            assert(line@.subrange(0, n as int) =~= lv);
            assert(trim_start(lv) =~= lv.subrange(t as int, n as int));
        }
        let fence = range_starts_with(line, t, n, "```") || range_starts_with(line, t, n, "~~~");
        let ghost plain = ParseState { in_code: false, ..st };
        if fence {
            in_code_block = !in_code_block;
            push_content_line(&mut entries, &mut root, line);
            proof {
                let after = push_content(ParseState { in_code: !st.in_code, ..st }, lv);
                assert(after.root == push_content(plain, lv).root);
                assert(after.sections == push_content(plain, lv).sections);
                assert(parse_lines(lsv.take(k + 1)) == after);
            }
        } else if in_code_block {
            push_content_line(&mut entries, &mut root, line);
            proof {
                let after = push_content(st, lv);
                assert(after.root == push_content(plain, lv).root);
                assert(after.sections == push_content(plain, lv).sections);
                assert(parse_lines(lsv.take(k + 1)) == after);
            }
        } else {
            match heading_exec(line) {
                Some((level, heading_name)) => {
                    let ghost old_entries = entries@;
                    let e = Entry { level: level, name: heading_name, lines: Vec::new() };
                    entries.push(e);
                    proof {
                        assert(e.lines.deep_view() =~= Seq::<Seq<char>>::empty());
                        assert(open_sections_of(entries@) =~= open_sections_of(old_entries).push(
                            open_section_of(e),
                        ));
                        assert(1 <= level) by {
                            lemma_hash_run(lv, 0);
                        }
                    }
                },
                None => {
                    push_content_line(&mut entries, &mut root, line);
                    proof {
                        let after = push_content(st, lv);
                        assert(after.root == push_content(plain, lv).root);
                        assert(after.sections == push_content(plain, lv).sections);
                        assert(parse_lines(lsv.take(k + 1)) == after);
                    }
                },
            }
        }
        k += 1;
    }
    assert(lsv.take(ls@.len() as int) =~= lsv);
    let ghost st = parse_lines(lsv);
    // Convert flat entries into StructuredNode leaves (no children yet)
    let mut nodes: Vec<StructuredNode> = Vec::new();
    let mut i: usize = 0;
    while i < entries.len()
        invariant
            i <= entries@.len(),
            st.sections == open_sections_of(entries@),
            nodes@.len() == i,
            forall|j: int| 0 <= j < i ==> #[trigger] sections_of(nodes@)[j] == sections_in(markdown@)[j],
            forall|j: int| 0 <= j < entries@.len() ==> 1 <= #[trigger] entries@[j].level,
            forall|j: int| 0 <= j < i ==> 1 <= #[trigger] nodes@[j].level,
            st == parse_lines(lines(markdown@)),
        decreases entries@.len() - i,
    {
        let joined = join_lines_exec(&entries[i].lines);
        let content = trim_newlines_exec(&joined);
        let node = StructuredNode {
            name: entries[i].name.clone(),
            level: entries[i].level,
            content: content,
            children: Vec::new(),
        };
        let ghost old_nodes = nodes@;
        nodes.push(node);
        proof {
            assert(open_sections_of(entries@)[i as int] == open_section_of(entries@[i as int]));
            assert(sections_of(nodes@)[i as int] == sections_in(markdown@)[i as int]);
            assert forall|j: int| 0 <= j < i + 1 implies #[trigger] sections_of(nodes@)[j] == sections_in(markdown@)[j] by {
                if j < i {
                    assert(nodes@[j] == old_nodes[j]);
                    assert(sections_of(nodes@)[j] == sections_of(old_nodes)[j]);
                }
            }
        }
        i += 1;
    }
    proof {
        assert(sections_of(nodes@) =~= sections_in(markdown@));
    }
    let content = trim_newlines_exec(&root);
    let children = build_tree(nodes);
    let res = StructuredNode { name: String::from_str(name), level: 0, content: content, children: children };
    proof {
        lemma_tree_children(res);
    }
    res
}


// ---------------------------------------------------------------------
// Lookup by heading path
// ---------------------------------------------------------------------

/// Position of the first tree of `cs[i..]` named `name`.
pub open spec fn first_named(cs: Seq<Tree>, name: Seq<char>, i: int) -> Option<int>
    decreases cs.len() - i,
{
    if i < 0 || i >= cs.len() {
        None
    } else if cs[i].name == name {
        Some(i)
    } else {
        first_named(cs, name, i + 1)
    }
}

/// The sub-tree that a `/`-separated heading path leads to: each step goes to
/// the first child with exactly that name. The empty path is the tree itself.
pub open spec fn find_in(t: Tree, path: Seq<char>) -> Option<Tree>
    decreases path.len(),
{
    if path.len() == 0 {
        Some(t)
    } else {
        let p = find_char_from(path, '/', 0);
        proof {
            crate::text::lemma_find_char_bounds(path, '/', 0);
        }
        let target = path.take(p);
        let rest = if p < path.len() {
            path.skip(p + 1)
        } else {
            Seq::empty()
        };
        match first_named(t.children, target, 0) {
            Some(i) => if 0 <= i < t.children.len() {
                find_in(t.children[i], rest)
            } else {
                None
            },
            None => None,
        }
    }
}

proof fn lemma_first_named_found(cs: Seq<Tree>, name: Seq<char>, i: int, k: int)
    requires
        0 <= i <= k < cs.len(),
        forall|j: int| i <= j < k ==> #[trigger] cs[j].name != name,
        cs[k].name == name,
    ensures
        first_named(cs, name, i) == Some(k),
    decreases k - i,
{
    if i < k {
        lemma_first_named_found(cs, name, i + 1, k);
    }
}

proof fn lemma_first_named_none(cs: Seq<Tree>, name: Seq<char>, i: int)
    requires
        0 <= i <= cs.len(),
        forall|j: int| i <= j < cs.len() ==> #[trigger] cs[j].name != name,
    ensures
        first_named(cs, name, i) is None,
    decreases cs.len() - i,
{
    if i < cs.len() {
        lemma_first_named_none(cs, name, i + 1);
    }
}

/// Find a sub-node by a `/`-separated heading path.
///
/// Example: `find(&root, "Stack/Frontend")` traverses:
///   root → child named "Stack" → child named "Frontend"
///
/// Matching is case-sensitive and exact.
pub fn find<'a>(node: &'a StructuredNode, heading_path: &str) -> (res: Option<&'a StructuredNode>)
    ensures
        match res {
            Some(r) => find_in(tree_of(*node), heading_path@) == Some(tree_of(*r)),
            None => find_in(tree_of(*node), heading_path@) is None,
        },
    decreases heading_path@.len(),
{
    if heading_path.is_empty() {
        return Some(node);
    }
    let path = to_chars(heading_path);
    let n = path.len();
    let mut p: usize = 0;
    while p < n && path[p] != '/'
        invariant
            p <= n,
            n == path@.len(),
            forall|k: int| 0 <= k < p ==> path@[k] != '/',
        decreases n - p,
    {
        p += 1;
    }
    proof {
        crate::text::lemma_find_char_from_first(path@, '/', 0, p as int);
    }
    let target = string_of(&path, 0, p);
    let rest = if p < n {
        string_of(&path, p + 1, n)
    } else {
        String::new()
    };
    proof {
        assert(target@ =~= heading_path@.take(p as int));
        if p < n {
            assert(rest@ =~= heading_path@.skip(p + 1));
        }
        lemma_tree_children(*node);
    }
    let ghost cs = tree_of(*node).children;
    let ghost want = match first_named(cs, target@, 0) {
        Some(k) => if 0 <= k < cs.len() {
            find_in(cs[k], rest@)
        } else {
            None
        },
        None => None,
    };
    assert(find_in(tree_of(*node), heading_path@) == want);
    let mut i: usize = 0;
    while i < node.children.len()
        invariant
            i <= node.children@.len(),
            cs == trees_of(node.children@),
            rest@.len() < heading_path@.len(),
            find_in(tree_of(*node), heading_path@) == want,
            want == (match first_named(cs, target@, 0) {
                Some(k) => if 0 <= k < cs.len() {
                    find_in(cs[k], rest@)
                } else {
                    None
                },
                None => None,
            }),
            forall|j: int| 0 <= j < i ==> #[trigger] cs[j].name != target@,
        decreases node.children@.len() - i,
    {
        if node.children[i].name == target {
            proof {
                lemma_first_named_found(cs, target@, 0, i as int);
            }
            return find(&node.children[i], rest.as_str());
        }
        i += 1;
    }
    proof {
        lemma_first_named_none(cs, target@, 0);
    }
    None
}

// ---------------------------------------------------------------------
// Rendering and outlines
// ---------------------------------------------------------------------

/// The heading line of a tree: `level` times `#`, a space, the name, a newline;
/// nothing for the root.
pub open spec fn heading_text(t: Tree) -> Seq<char> {
    if t.level > 0 {
        Seq::new(t.level as nat, |i: int| '#') + seq![' '] + t.name + seq!['\n']
    } else {
        Seq::empty()
    }
}

/// The content of a tree, followed by a newline, and after a blank line when
/// it stands under a heading; nothing when the content is empty.
pub open spec fn body_text(t: Tree) -> Seq<char> {
    if t.content.len() > 0 {
        (if t.level > 0 {
            seq!['\n']
        } else {
            Seq::empty()
        }) + t.content + seq!['\n']
    } else {
        Seq::empty()
    }
}

/// Markdown for a tree: its heading, its content, then each child after a blank line.
pub open spec fn render_tree(t: Tree) -> Seq<char>
    decreases t, 1nat,
{
    heading_text(t) + body_text(t) + render_forest(t.children, t.children.len() as int)
}

/// The first `n` trees of `cs` rendered, each after a newline.
pub open spec fn render_forest(cs: Seq<Tree>, n: int) -> Seq<char>
    decreases cs, 0nat, n,
{
    if n <= 0 || n > cs.len() {
        Seq::empty()
    } else {
        render_forest(cs, n - 1) + seq!['\n'] + render_tree(cs[n - 1])
    }
}

/// Render a `StructuredNode` sub-tree back to markdown.
///
/// Reconstructs headings with `#` markers at the correct level,
/// followed by content, then recursively renders children.
pub fn render(node: &StructuredNode) -> (res: String)
    ensures
        res@ == render_tree(tree_of(*node)),
    decreases node,
{
    let ghost t = tree_of(*node);
    proof {
        lemma_tree_children(*node);
    }
    let mut out = String::new();
    if node.level > 0 {
        let mut k: u8 = 0;
        while k < node.level
            invariant
                k <= node.level,
                out@ == Seq::new(k as nat, |i: int| '#'),
            decreases node.level - k,
        {
            push_char(&mut out, '#');
            assert(out@ =~= Seq::new((k + 1) as nat, |i: int| '#'));
            k += 1;
        }
        push_char(&mut out, ' ');
        out.append(node.name.as_str());
        push_char(&mut out, '\n');
    }
    assert(out@ =~= heading_text(t));
    if !node.content.as_str().is_empty() {
        if node.level > 0 {
            push_char(&mut out, '\n');
        }
        out.append(node.content.as_str());
        push_char(&mut out, '\n');
    }
    assert(out@ =~= heading_text(t) + body_text(t));
    let mut i: usize = 0;
    assert(out@ =~= heading_text(t) + body_text(t) + render_forest(t.children, 0));
    while i < node.children.len()
        invariant
            i <= node.children@.len(),
            t == tree_of(*node),
            t.children == trees_of(node.children@),
            out@ == heading_text(t) + body_text(t) + render_forest(t.children, i as int),
        decreases node.children@.len() - i,
    {
        push_char(&mut out, '\n');
        assert(decreases_to!(*node => node.children));
        let child = render(&node.children[i]);
        out.append(child.as_str());
        assert(out@ =~= heading_text(t) + body_text(t) + render_forest(t.children, i + 1));
        i += 1;
    }
    out
}

/// The outline of a tree: `(level, name)` of the tree, then of its descendants in document order.
pub open spec fn outline_tree(t: Tree) -> Seq<(u8, Seq<char>)>
    decreases t, 1nat,
{
    seq![(t.level, t.name)] + outline_forest(t.children, t.children.len() as int)
}

/// The outlines of the first `n` trees of `cs`, one after the other.
pub open spec fn outline_forest(cs: Seq<Tree>, n: int) -> Seq<(u8, Seq<char>)>
    decreases cs, 0nat, n,
{
    if n <= 0 || n > cs.len() {
        Seq::empty()
    } else {
        outline_forest(cs, n - 1) + outline_tree(cs[n - 1])
    }
}

fn collect_outline(node: &StructuredNode, result: &mut Vec<(u8, String)>)
    ensures
        final(result).deep_view() == old(result).deep_view() + outline_forest(
            tree_of(*node).children,
            tree_of(*node).children.len() as int,
        ),
    decreases node,
{
    let ghost t = tree_of(*node);
    let ghost start = result.deep_view();
    proof {
        lemma_tree_children(*node);
    }
    let mut i: usize = 0;
    assert(result.deep_view() =~= start + outline_forest(t.children, 0));
    while i < node.children.len()
        invariant
            i <= node.children@.len(),
            t == tree_of(*node),
            t.children == trees_of(node.children@),
            result.deep_view() == start + outline_forest(t.children, i as int),
        decreases node.children@.len() - i,
    {
        let child = &node.children[i];
        let ghost before = result.deep_view();
        result.push((child.level, child.name.clone()));
        assert(result.deep_view() =~= before.push((child.level, child.name@)));
        assert(decreases_to!(*node => node.children));
        collect_outline(&node.children[i], result);
        proof {
            lemma_tree_children(*child);
            assert(outline_tree(tree_of(*child)) =~= seq![(child.level, child.name@)]
                + outline_forest(tree_of(*child).children, tree_of(*child).children.len() as int));
        }
        assert(result.deep_view() =~= start + outline_forest(t.children, i + 1));
        i += 1;
    }
}

/// Extract an outline: a flat list of `(level, name)` pairs from the tree.
/// Includes the root if it has a meaningful name.
pub fn outline(node: &StructuredNode) -> (res: Vec<(u8, String)>)
    ensures
        res.deep_view() == outline_tree(tree_of(*node)),
{
    let mut result: Vec<(u8, String)> = Vec::new();
    result.push((node.level, node.name.clone()));
    assert(result.deep_view() =~= seq![(node.level, node.name@)]);
    collect_outline(node, &mut result);
    result
}

} // verus!
