//! What the commands print: listings, links, outlines, tags and messages.
use vstd::prelude::*;

use crate::link::{backlink_sources, backlinks, links_of, parse_links};
use crate::error::OpenMemError;
use crate::node::NodeContent;
use crate::structured::{document_tree, find, find_in, parse, render, render_tree};
use crate::size::{category_of, node_size, size_of, SizeCategory};
use crate::survey::joined;
use crate::tags::{find_by_tag, get_node_tags, list_tags, tagged_paths, tags_of, has_key};
use crate::config::strip_leading;
use crate::index::tag_listing;
use crate::text::{
    dec, push_usize, skip_ws_back, sort_by_insertion, string_of, text_before, to_chars, trim_end,
    };

verus! {

/// Appends the items joined with `sep`.
fn push_join(out: &mut String, items: &Vec<String>, sep: &str)
    ensures
        final(out)@ == old(out)@ + joined(items.deep_view(), sep@),
{
    let ghost start = out@;
    let mut i: usize = 0;
    assert(items.deep_view().take(0) =~= Seq::<Seq<char>>::empty());
    while i < items.len()
        invariant
            i <= items@.len(),
            out@ == start + joined(items.deep_view().take(i as int), sep@),
        decreases items@.len() - i,
    {
        assert(items.deep_view().take(i + 1).drop_last() =~= items.deep_view().take(i as int));
        assert(items.deep_view()[i as int] == items@[i as int]@);
        if i > 0 {
            out.append(sep);
        } else {
            assert(items.deep_view().take(1) =~= seq![items@[0]@]);
        }
        out.append(items[i].as_str());
        i += 1;
    }
    assert(items.deep_view().take(items@.len() as int) =~= items.deep_view());
}

/// `s` without its trailing whitespace.
fn trimmed_end(s: String) -> (res: String)
    ensures
        res@ == trim_end(s@),
{
    let cs = to_chars(s.as_str());
    let n = cs.len();
    let b = skip_ws_back(&cs, 0, n);
    assert(cs@.subrange(0, n as int) =~= cs@);
    let r = string_of(&cs, 0, b);
    assert(r@ =~= trim_end(s@));
    r
}

// ---------------------------------------------------------------------
// list
// ---------------------------------------------------------------------

/// A line of a listing with sizes.
pub open spec fn size_line(path: Seq<char>, content: Seq<char>) -> Seq<char> {
    let sv = size_of(path, content);
    path + category_of(sv.bytes).marker_text() + " ("@ + dec(sv.lines) + " lines, ~"@ + dec(
        sv.tokens,
    ) + " tokens)\n"@
}

/// The lines of a listing with sizes: one per node that could be read.
pub open spec fn size_lines(nodes: Seq<NodeContent>) -> Seq<char>
    decreases nodes.len(),
{
    if nodes.len() == 0 {
        Seq::empty()
    } else {
        size_lines(nodes.drop_last()) + match nodes.last().text() {
            Some(c) => size_line(nodes.last().path@, c),
            None => Seq::empty(),
        }
    }
}

/// What `list` prints for the listing `nodes`.
pub open spec fn list_text(nodes: Seq<NodeContent>, sizes: bool) -> Seq<char> {
    if nodes.len() == 0 {
        "(no nodes)"@
    } else if sizes {
        trim_end(size_lines(nodes))
    } else {
        joined(Seq::new(nodes.len(), |i: int| nodes[i].path@), "\n"@)
    }
}

/// The output of `list`: the node paths one per line, or with `sizes` each
/// readable node with its size marker, lines and estimated tokens.
pub fn list_output(nodes: &Vec<NodeContent>, sizes: bool) -> (res: String)
    ensures
        res@ == list_text(nodes@, sizes),
{
    if nodes.len() == 0 {
        return String::from_str("(no nodes)");
    }
    let mut output = String::new();
    if sizes {
        let mut i: usize = 0;
        assert(nodes@.take(0) =~= Seq::<NodeContent>::empty());
        while i < nodes.len()
            invariant
                i <= nodes@.len(),
                output@ == size_lines(nodes@.take(i as int)),
            decreases nodes@.len() - i,
        {
            let e = &nodes[i];
            assert(nodes@.take(i + 1).drop_last() =~= nodes@.take(i as int));
            assert(nodes@.take(i + 1).last() == *e);
            match &e.content {
                Some(c) => {
                    let ghost start = output@;
                    let size = node_size(e.path.as_str(), c.as_str());
                    let category = SizeCategory::from_bytes(size.bytes);
                    output.append(e.path.as_str());
                    output.append(category.marker());
                    output.append(" (");
                    push_usize(&mut output, size.lines);
                    output.append(" lines, ~");
                    push_usize(&mut output, size.tokens);
                    output.append(" tokens)\n");
                    assert(output@ =~= start + size_line(e.path@, c@));
                },
                None => {},
            }
            i += 1;
        }
        assert(nodes@.take(nodes@.len() as int) =~= nodes@);
        trimmed_end(output)
    } else {
        let mut paths: Vec<String> = Vec::new();
        let mut i: usize = 0;
        while i < nodes.len()
            invariant
                i <= nodes@.len(),
                paths.deep_view() =~= Seq::new(nodes@.len(), |k: int| nodes@[k].path@).take(i as int),
            decreases nodes@.len() - i,
        {
            let ghost old_dv = paths.deep_view();
            paths.push(nodes[i].path.clone());
            assert(paths.deep_view() =~= old_dv.push(nodes@[i as int].path@));
            i += 1;
        }
        assert(Seq::new(nodes@.len(), |k: int| nodes@[k].path@).take(nodes@.len() as int) =~= Seq::new(
            nodes@.len(),
            |k: int| nodes@[k].path@,
        ));
        push_join(&mut output, &paths, "\n");
        output
    }
}

// ---------------------------------------------------------------------
// links
// ---------------------------------------------------------------------

pub open spec fn arrow_lines(items: Seq<Seq<char>>, arrow: Seq<char>) -> Seq<char>
    decreases items.len(),
{
    if items.len() == 0 {
        Seq::empty()
    } else {
        arrow_lines(items.drop_last(), arrow) + "  "@ + arrow + " "@ + items.last() + "\n"@
    }
}

pub open spec fn arrow_block(items: Seq<Seq<char>>, arrow: Seq<char>) -> Seq<char> {
    if items.len() == 0 {
        "  (none)\n"@
    } else {
        arrow_lines(items, arrow)
    }
}

/// What `links` prints for a node with text `content` in the vault listing `all`.
pub open spec fn links_text(content: Seq<char>, all: Seq<NodeContent>, path: Seq<char>) -> Seq<char> {
    "Outgoing links:\n"@ + arrow_block(links_of(content), "→"@) + "Backlinks:\n"@ + arrow_block(
        sort_by_insertion(backlink_sources(all, path), text_before()),
        "←"@,
    )
}

fn push_arrow_block(out: &mut String, items: &Vec<String>, arrow: &str)
    ensures
        final(out)@ == old(out)@ + arrow_block(items.deep_view(), arrow@),
{
    if items.len() == 0 {
        out.append("  (none)\n");
        return;
    }
    let ghost start = out@;
    let mut i: usize = 0;
    assert(items.deep_view().take(0) =~= Seq::<Seq<char>>::empty());
    while i < items.len()
        invariant
            i <= items@.len(),
            out@ == start + arrow_lines(items.deep_view().take(i as int), arrow@),
        decreases items@.len() - i,
    {
        assert(items.deep_view().take(i + 1).drop_last() =~= items.deep_view().take(i as int));
        assert(items.deep_view()[i as int] == items@[i as int]@);
        out.append("  ");
        out.append(arrow);
        out.append(" ");
        out.append(items[i].as_str());
        out.append("\n");
        i += 1;
    }
    assert(items.deep_view().take(items@.len() as int) =~= items.deep_view());
}

/// The output of `links`: the node's outgoing links, then the nodes linking to it.
pub fn links_output(content: &str, all: &Vec<NodeContent>, path: &str) -> (res: String)
    ensures
        res@ == links_text(content@, all@, path@),
{
    let outgoing = parse_links(content);
    let incoming = backlinks(all, path);
    let mut output = String::from_str("Outgoing links:\n");
    push_arrow_block(&mut output, &outgoing, "→");
    output.append("Backlinks:\n");
    push_arrow_block(&mut output, &incoming, "←");
    output
}

// ---------------------------------------------------------------------
// outline
// ---------------------------------------------------------------------

/// `n` copies of two spaces.
pub open spec fn indent(n: nat) -> Seq<char>
    decreases n,
{
    if n == 0 {
        Seq::empty()
    } else {
        indent((n - 1) as nat) + "  "@
    }
}

pub open spec fn outline_text(items: Seq<(u8, Seq<char>)>) -> Seq<char>
    decreases items.len(),
{
    if items.len() == 0 {
        Seq::empty()
    } else {
        outline_text(items.drop_last()) + indent(items.last().0 as nat) + items.last().1 + "\n"@
    }
}

/// The output of `outline`: each heading on its own line, indented by level.
pub fn outline_output(items: &Vec<(u8, String)>) -> (res: String)
    ensures
        res@ == outline_text(items.deep_view()),
{
    let mut output = String::new();
    let mut i: usize = 0;
    assert(items.deep_view().take(0) =~= Seq::<(u8, Seq<char>)>::empty());
    while i < items.len()
        invariant
            i <= items@.len(),
            output@ == outline_text(items.deep_view().take(i as int)),
        decreases items@.len() - i,
    {
        assert(items.deep_view().take(i + 1).drop_last() =~= items.deep_view().take(i as int));
        assert(items.deep_view()[i as int] == (items@[i as int].0, items@[i as int].1@));
        let ghost start = output@;
        let level = items[i].0;
        let mut k: u8 = 0;
        while k < level
            invariant
                k <= level,
                output@ == start + indent(k as nat),
            decreases level - k,
        {
            output.append("  ");
            k += 1;
        }
        output.append(items[i].1.as_str());
        output.append("\n");
        i += 1;
    }
    assert(items.deep_view().take(items@.len() as int) =~= items.deep_view());
    output
}

// ---------------------------------------------------------------------
// tags
// ---------------------------------------------------------------------

pub open spec fn tag_count_lines(l: Seq<(Seq<char>, nat)>) -> Seq<char>
    decreases l.len(),
{
    if l.len() == 0 {
        Seq::empty()
    } else {
        tag_count_lines(l.drop_last()) + "#"@ + l.last().0 + " ("@ + dec(l.last().1) + " nodes)\n"@
    }
}

/// What `tags list` prints for the tag listing `l`.
pub open spec fn tags_list_text(l: Seq<(Seq<char>, nat)>) -> Seq<char> {
    if l.len() == 0 {
        "No tags found."@
    } else {
        trim_end(tag_count_lines(l))
    }
}

/// The output of `tags list`: each tag of the listing with its node count, by name.
pub fn tags_list_output(nodes: &Vec<NodeContent>) -> (res: String)
    ensures
        exists|l: Seq<(Seq<char>, nat)>| tag_listing(nodes@, l) && res@ == tags_list_text(l),
{
    let tags = list_tags(nodes);
    let ghost lv = tags.deep_view();
    let ghost l = Seq::new(lv.len(), |i: int| (lv[i].0, lv[i].1 as nat));
    proof {
        assert forall|a: int, b: int| 0 <= a < b < l.len() implies crate::text::seq_lt(#[trigger] l[a].0, #[trigger] l[b].0) by {
            assert(l[a].0 == lv[a].0);
            assert(l[b].0 == lv[b].0);
        }
        assert forall|t: Seq<char>| #[trigger] has_key(l, t) <==> tagged_paths(nodes@, t).len() > 0 by {
            if has_key(lv, t) {
                let q = choose|q: int| 0 <= q < lv.len() && #[trigger] lv[q].0 == t;
                assert(l[q].0 == t);
            }
            if has_key(l, t) {
                let q = choose|q: int| 0 <= q < l.len() && #[trigger] l[q].0 == t;
                assert(lv[q].0 == t);
            }
        }
        assert(tag_listing(nodes@, l));
    }
    if tags.len() == 0 {
        let r = String::from_str("No tags found.");
        assert(tag_listing(nodes@, l) && r@ == tags_list_text(l));
        return r;
    }
    let mut output = String::new();
    let mut i: usize = 0;
    assert(l.take(0) =~= Seq::<(Seq<char>, nat)>::empty());
    while i < tags.len()
        invariant
            lv == tags.deep_view(),
            l == Seq::new(lv.len(), |k: int| (lv[k].0, lv[k].1 as nat)),
            i <= l.len(),
            output@ == tag_count_lines(l.take(i as int)),
        decreases l.len() - i,
    {
        assert(l.take(i + 1).drop_last() =~= l.take(i as int));
        assert(l[i as int] == (tags@[i as int].0@, tags@[i as int].1 as nat));
        output.append("#");
        output.append(tags[i].0.as_str());
        output.append(" (");
        push_usize(&mut output, tags[i].1);
        output.append(" nodes)\n");
        i += 1;
    }
    assert(l.take(l.len() as int) =~= l);
    let r = trimmed_end(output);
    assert(tag_listing(nodes@, l) && r@ == tags_list_text(l));
    r
}

/// What `tags find` prints for the paths found for a tag.
pub open spec fn tags_find_text(found: Seq<Seq<char>>, tag: Seq<char>) -> Seq<char> {
    if found.len() == 0 {
        "No nodes found with tag #"@ + strip_leading(tag, '#')
    } else {
        joined(found, "\n"@)
    }
}

/// The output of `tags find`: the nodes carrying the tag, one per line.
pub fn tags_find_output(all: &Vec<NodeContent>, tag: &str) -> (res: String)
    ensures
        res@ == tags_find_text(
            sort_by_insertion(tagged_paths(all@, crate::tags::strip_hash(tag@)), text_before()),
            tag@,
        ),
{
    let nodes = find_by_tag(all, tag);
    if nodes.len() == 0 {
        let mut output = String::from_str("No nodes found with tag #");
        let cs = to_chars(tag);
        let mut k: usize = 0;
        assert(cs@.skip(0) =~= cs@);
        while k < cs.len() && cs[k] == '#'
            invariant
                k <= cs@.len(),
                cs@ == tag@,
                strip_leading(tag@, '#') == strip_leading(cs@.skip(k as int), '#'),
            decreases cs@.len() - k,
        {
            assert(cs@.skip(k as int).drop_first() =~= cs@.skip(k + 1));
            k += 1;
        }
        let rest = string_of(&cs, k, cs.len());
        assert(rest@ =~= cs@.skip(k as int));
        output.append(rest.as_str());
        output
    } else {
        let mut output = String::new();
        push_join(&mut output, &nodes, "\n");
        output
    }
}

pub open spec fn hash_tags(ts: Seq<Seq<char>>) -> Seq<Seq<char>> {
    Seq::new(ts.len(), |i: int| "#"@ + ts[i])
}

/// What `tags show` prints for a node.
pub open spec fn tags_show_text(tags: Seq<Seq<char>>, path: Seq<char>) -> Seq<char> {
    if tags.len() == 0 {
        "No tags in "@ + path
    } else {
        joined(hash_tags(tags), " "@)
    }
}

/// The output of `tags show` for the node `path` with text `content`.
pub fn tags_show_output(content: &str, path: &str) -> (res: String)
    ensures
        res@ == tags_show_text(tags_of(content@), path@),
{
    let tags = get_node_tags(content);
    if tags.len() == 0 {
        let mut output = String::from_str("No tags in ");
        output.append(path);
        return output;
    }
    let mut items: Vec<String> = Vec::new();
    let mut i: usize = 0;
    while i < tags.len()
        invariant
            i <= tags@.len(),
            items.deep_view() =~= hash_tags(tags.deep_view()).take(i as int),
        decreases tags@.len() - i,
    {
        let mut t = String::from_str("#");
        t.append(tags[i].as_str());
        let ghost old_dv = items.deep_view();
        items.push(t);
        assert(items.deep_view() =~= old_dv.push("#"@ + tags@[i as int]@));
        i += 1;
    }
    assert(hash_tags(tags.deep_view()).take(tags@.len() as int) =~= hash_tags(tags.deep_view()));
    let mut output = String::new();
    push_join(&mut output, &items, " ");
    output
}

// ---------------------------------------------------------------------
// Messages
// ---------------------------------------------------------------------

/// The message after a node was written.
pub fn written_message(path: &str) -> (res: String)
    ensures
        res@ == "Written: "@ + path@,
{
    let mut s = String::from_str("Written: ");
    s.append(path);
    s
}

/// The message after a node was deleted.
pub fn deleted_message(path: &str) -> (res: String)
    ensures
        res@ == "Deleted: "@ + path@,
{
    let mut s = String::from_str("Deleted: ");
    s.append(path);
    s
}

/// What `index show` prints when there is no index.
pub fn no_index_message() -> (res: String)
    ensures
        res@ == "No index found. Run `openmem index update` to create one."@,
{
    String::from_str("No index found. Run `openmem index update` to create one.")
}

/// A node path with a heading path after `#`, split: the node, and the
/// heading path if there is a `#`.
pub fn split_section_path(path: &str) -> (res: (String, Option<String>))
    ensures
        ({
            let k = crate::text::find_char_from(path@, '#', 0);
            &&& res.0@ == path@.take(k)
            &&& (k < path@.len() ==> (res.1 matches Some(h) && h@ == path@.skip(k + 1)))
            &&& (k >= path@.len() ==> res.1 is None)
        }),
{
    let cs = to_chars(path);
    let n = cs.len();
    let mut k: usize = 0;
    while k < n && cs[k] != '#'
        invariant
            k <= n,
            n == cs@.len(),
            cs@ == path@,
            crate::text::find_char_from(path@, '#', 0) == crate::text::find_char_from(path@, '#', k as int),
        decreases n - k,
    {
        k += 1;
    }
    let node = string_of(&cs, 0, k);
    assert(node@ =~= path@.take(k as int));
    if k < n {
        let h = string_of(&cs, k + 1, n);
        assert(h@ =~= path@.skip(k + 1));
        (node, Some(h))
    } else {
        (node, None)
    }
}

/// What a read of `path` (a node path, optionally `#` and a heading path)
/// shows of a node with text `content`: all of it, or the rendered section
/// the heading path finds; `None` when it finds none.
pub open spec fn section_text(path: Seq<char>, content: Seq<char>) -> Option<Seq<char>> {
    let k = crate::text::find_char_from(path, '#', 0);
    if k >= path.len() {
        Some(content)
    } else {
        match find_in(document_tree(path.take(k), content), path.skip(k + 1)) {
            Some(t) => Some(render_tree(t)),
            None => None,
        }
    }
}

/// The output of `read` for `path` (a node path, optionally `#` and a heading
/// path), given the text of the node: the whole text, or the section the
/// heading path names, rendered; a heading path that finds no section is
/// answered with `NodeNotFound(path)`.
pub fn read_section(path: &str, content: &str) -> (res: Result<String, OpenMemError>)
    ensures
        match section_text(path@, content@) {
            Some(t) => res matches Ok(s) && s@ == t,
            None => res matches Err(OpenMemError::NodeNotFound(p)) && p@ == path@,
        },
{
    let (node, heading) = split_section_path(path);
    match heading {
        None => Ok(String::from_str(content)),
        Some(h) => {
            let tree = parse(node.as_str(), content);
            match find(&tree, h.as_str()) {
                Some(section) => Ok(render(section)),
                None => Err(OpenMemError::NodeNotFound(String::from_str(path))),
            }
        },
    }
}

} // verus!
