//! `#tag` references in markdown: which words are tags, and the vault-wide
//! tag queries built on them.
use vstd::prelude::*;

use crate::node::NodeContent;
use crate::text::{
    contains_string, lemma_dedup_keep_first, lemma_lt_asymmetric, lemma_lt_total,
    lemma_lt_transitive, lemma_sort_contains, lemma_sort_no_duplicates, push_usize,
    seq_lt, str_lt, dec, dedup_keep_first, lines, range_starts_with, skip_ws, sort_by_insertion,
    sort_strings, split_lines, starts_with, string_of, text_before, to_chars, trim_start,
};

verus! {

// ---------------------------------------------------------------------
// The tag grammar
// ---------------------------------------------------------------------

/// A tag starts with an ASCII letter or an underscore.
pub open spec fn is_tag_start(c: char) -> bool {
    ('a' <= c && c <= 'z') || ('A' <= c && c <= 'Z') || c == '_'
}

/// After its first character a tag goes on with letters, digits, hyphens or underscores.
pub open spec fn is_tag_char(c: char) -> bool {
    is_tag_start(c) || ('0' <= c && c <= '9') || c == '-'
}

/// End of the run of tag characters of `l` that starts at `j`.
pub open spec fn tag_end(l: Seq<char>, j: int) -> int
    decreases l.len() - j,
{
    if 0 <= j < l.len() && is_tag_char(l[j]) {
        tag_end(l, j + 1)
    } else {
        j
    }
}

pub proof fn lemma_tag_end(l: Seq<char>, j: int)
    requires
        0 <= j <= l.len(),
    ensures
        j <= tag_end(l, j) <= l.len(),
        forall|k: int| j <= k < tag_end(l, j) ==> is_tag_char(#[trigger] l[k]),
        tag_end(l, j) < l.len() ==> !is_tag_char(l[tag_end(l, j)]),
    decreases l.len() - j,
{
    if j < l.len() && is_tag_char(l[j]) {
        lemma_tag_end(l, j + 1);
    }
}

/// The words of `l[i..]` that the pattern `#([a-zA-Z_][a-zA-Z0-9_-]*)` captures,
/// left to right, each search resuming after the previous match.
pub open spec fn line_tags_from(l: Seq<char>, i: int) -> Seq<Seq<char>>
    decreases l.len() - i,
{
    if i < 0 || i >= l.len() {
        Seq::empty()
    } else if l[i] == '#' && i + 1 < l.len() && is_tag_start(l[i + 1]) {
        let e = tag_end(l, i + 1);
        proof {
            lemma_tag_end(l, i + 1);
        }
        seq![l.subrange(i + 1, e)] + line_tags_from(l, e)
    } else {
        line_tags_from(l, i + 1)
    }
}

/// A line that opens or closes a fenced code block.
pub open spec fn is_fence(trimmed: Seq<char>) -> bool {
    starts_with(trimmed, "```"@) || starts_with(trimmed, "~~~"@)
}

/// A heading line: `#` followed by a space.
pub open spec fn is_heading_marker(trimmed: Seq<char>) -> bool {
    trimmed.len() >= 2 && trimmed[0] == '#' && trimmed[1] == ' '
}

/// Whether the lines `ls` leave the reader inside a fenced code block.
pub open spec fn in_code_after(ls: Seq<Seq<char>>) -> bool
    decreases ls.len(),
{
    if ls.len() == 0 {
        false
    } else {
        in_code_after(ls.drop_last()) != is_fence(trim_start(ls.last()))
    }
}

/// The tags a line contributes: none for fences, lines inside code blocks and headings.
pub open spec fn line_tag_contribution(line: Seq<char>, in_code: bool) -> Seq<Seq<char>> {
    let t = trim_start(line);
    if is_fence(t) || in_code || is_heading_marker(t) {
        Seq::empty()
    } else {
        line_tags_from(line, 0)
    }
}

/// Every tag occurrence of the lines `ls`, in order.
pub open spec fn tag_occurrences(ls: Seq<Seq<char>>) -> Seq<Seq<char>>
    decreases ls.len(),
{
    if ls.len() == 0 {
        Seq::empty()
    } else {
        tag_occurrences(ls.drop_last()) + line_tag_contribution(ls.last(), in_code_after(ls.drop_last()))
    }
}

/// The tags of a markdown text: each tag once, in ascending order.
pub open spec fn tags_of(content: Seq<char>) -> Seq<Seq<char>> {
    sort_by_insertion(dedup_keep_first(tag_occurrences(lines(content))), text_before())
}

fn is_tag_start_char(c: char) -> (res: bool)
    ensures
        res == is_tag_start(c),
{
    ('a' <= c && c <= 'z') || ('A' <= c && c <= 'Z') || c == '_'
}

fn is_tag_char_exec(c: char) -> (res: bool)
    ensures
        res == is_tag_char(c),
{
    is_tag_start_char(c) || ('0' <= c && c <= '9') || c == '-'
}

/// Extract all `#tag` references from markdown content.
///
/// Tags start with a letter or underscore, followed by letters, digits,
/// hyphens, or underscores. Tags inside fenced code blocks and heading lines
/// are ignored. The result holds each tag once, sorted.
pub fn parse_tags(content: &str) -> (res: Vec<String>)
    ensures
        res.deep_view() == tags_of(content@),
{
    let chars = to_chars(content);
    let ls = split_lines(&chars);
    let ghost lsv = ls.deep_view();
    let mut tags: Vec<String> = Vec::new();
    let mut in_code_block = false;
    let mut k: usize = 0;
    assert(lsv.take(0) =~= Seq::<Seq<char>>::empty());
    while k < ls.len()
        invariant
            lsv == ls.deep_view(),
            lsv == lines(content@),
            k <= ls@.len(),
            in_code_block == in_code_after(lsv.take(k as int)),
            tags.deep_view() == dedup_keep_first(tag_occurrences(lsv.take(k as int))),
        decreases ls@.len() - k,
    {
        let line = &ls[k];
        let ghost lv = line@;
        assert(lv == lsv[k as int]);
        assert(lsv.take(k + 1).drop_last() =~= lsv.take(k as int));
        assert(lsv.take(k + 1).last() == lv);
        let n = line.len();
        let t = skip_ws(line, 0, n);
        proof {
            assert(line@.subrange(0, n as int) =~= lv);
            assert(trim_start(lv) =~= lv.subrange(t as int, n as int));
        }
        let fence = range_starts_with(line, t, n, "```") || range_starts_with(line, t, n, "~~~");
        let ghost base = tag_occurrences(lsv.take(k as int));
        if fence {
            in_code_block = !in_code_block;
            assert(tag_occurrences(lsv.take(k + 1)) =~= base);
        } else if in_code_block {
            assert(tag_occurrences(lsv.take(k + 1)) =~= base);
        } else if n - t >= 2 && line[t] == '#' && line[t + 1] == ' ' {
            assert(tag_occurrences(lsv.take(k + 1)) =~= base);
        } else {
            proof {
                assert(!is_heading_marker(trim_start(lv)));
            }
            let mut i: usize = 0;
            let ghost mut got: Seq<Seq<char>> = Seq::empty();
            while i < n
                invariant
                    n == line@.len(),
                    lv == line@,
                    i <= n,
                    got + line_tags_from(lv, i as int) == line_tags_from(lv, 0),
                    tags.deep_view() == dedup_keep_first(base + got),
                decreases n - i,
            {
                if line[i] == '#' && i + 1 < n && is_tag_start_char(line[i + 1]) {
                    let mut e = i + 2;
                    while e < n && is_tag_char_exec(line[e])
                        invariant
                            i + 2 <= e <= n,
                            n == line@.len(),
                            forall|j: int| i + 1 <= j < e ==> is_tag_char(#[trigger] lv[j]),
                            lv == line@,
                        decreases n - e,
                    {
                        e += 1;
                    }
                    proof {
                        lemma_tag_end(lv, i + 1);
                        lemma_tag_end_exact(lv, i + 1, e as int);
                    }
                    let tag = string_of(line, i + 1, e);
                    proof {
                        assert(line_tags_from(lv, i as int) =~= seq![tag@] + line_tags_from(lv, e as int));
                        assert(got.push(tag@) + line_tags_from(lv, e as int) =~= got + line_tags_from(lv, i as int));
                        assert(base + got.push(tag@) =~= (base + got).push(tag@));
                        assert((base + got).push(tag@).drop_last() =~= base + got);
                    }
                    let ghost tag_v = tag@;
                    if !contains_string(&tags, &tag) {
                        let ghost old_dv = tags.deep_view();
                        tags.push(tag);
                        assert(tags.deep_view() =~= old_dv.push(tag_v));
                    }
                    proof {
                        got = got.push(lv.subrange(i + 1, e as int));
                    }
                    i = e;
                } else {
                    i += 1;
                }
            }
            proof {
                assert(line_tags_from(lv, n as int) =~= Seq::<Seq<char>>::empty());
                assert(got =~= line_tags_from(lv, 0));
                assert(tag_occurrences(lsv.take(k + 1)) =~= base + got);
            }
        }
        k += 1;
    }
    assert(lsv.take(ls@.len() as int) =~= lsv);
    sort_strings(tags)
}

proof fn lemma_tag_end_exact(l: Seq<char>, j: int, e: int)
    requires
        0 <= j <= e <= l.len(),
        forall|k: int| j <= k < e ==> is_tag_char(#[trigger] l[k]),
        e == l.len() || !is_tag_char(l[e]),
    ensures
        tag_end(l, j) == e,
    decreases e - j,
{
    if j < e {
        lemma_tag_end_exact(l, j + 1, e);
    }
}


/// A text's tags hold no tag twice.
pub proof fn lemma_tags_unique(content: Seq<char>)
    ensures
        tags_of(content).no_duplicates(),
        forall|t: Seq<char>| #[trigger] tags_of(content).contains(t) == tag_occurrences(lines(content)).contains(t),
{
    let occ = tag_occurrences(lines(content));
    lemma_dedup_keep_first(occ);
    lemma_sort_no_duplicates(dedup_keep_first(occ), text_before());
    assert forall|t: Seq<char>| #[trigger] tags_of(content).contains(t) == occ.contains(t) by {
        lemma_sort_contains(dedup_keep_first(occ), text_before(), t);
        assert(dedup_keep_first(occ).to_set().contains(t) == occ.to_set().contains(t));
    }
}

// ---------------------------------------------------------------------
// Tags across the vault
// ---------------------------------------------------------------------

/// The tags of a node: none when it could not be read.
pub open spec fn node_tags(e: NodeContent) -> Seq<Seq<char>> {
    match e.text() {
        Some(c) => tags_of(c),
        None => Seq::empty(),
    }
}

/// Paths of the nodes of `nodes` tagged `t`, in listing order.
pub open spec fn tagged_paths(nodes: Seq<NodeContent>, t: Seq<char>) -> Seq<Seq<char>>
    decreases nodes.len(),
{
    if nodes.len() == 0 {
        Seq::empty()
    } else {
        let r = tagged_paths(nodes.drop_last(), t);
        if node_tags(nodes.last()).contains(t) {
            r.push(nodes.last().path@)
        } else {
            r
        }
    }
}

/// A tag as the user gives it, with one leading `#` removed.
pub open spec fn strip_hash(tag: Seq<char>) -> Seq<char> {
    if tag.len() > 0 && tag[0] == '#' {
        tag.skip(1)
    } else {
        tag
    }
}

/// Find all nodes that have a specific tag (given with or without `#`).
///
/// Returns node paths sorted alphabetically.
pub fn find_by_tag(all: &Vec<NodeContent>, tag: &str) -> (res: Vec<String>)
    ensures
        res.deep_view() == sort_by_insertion(tagged_paths(all@, strip_hash(tag@)), text_before()),
{
    let tc = to_chars(tag);
    let target = if tc.len() > 0 && tc[0] == '#' {
        string_of(&tc, 1, tc.len())
    } else {
        string_of(&tc, 0, tc.len())
    };
    assert(target@ =~= strip_hash(tag@));
    let mut results: Vec<String> = Vec::new();
    let mut i: usize = 0;
    assert(all@.take(0) =~= Seq::<NodeContent>::empty());
    while i < all.len()
        invariant
            i <= all@.len(),
            target@ == strip_hash(tag@),
            results.deep_view() == tagged_paths(all@.take(i as int), target@),
        decreases all@.len() - i,
    {
        let e = &all[i];
        assert(all@.take(i + 1).drop_last() =~= all@.take(i as int));
        assert(all@.take(i + 1).last() == *e);
        match &e.content {
            Some(c) => {
                let tags = parse_tags(c.as_str());
                if contains_string(&tags, &target) {
                    let ghost old_dv = results.deep_view();
                    results.push(e.path.clone());
                    assert(results.deep_view() =~= old_dv.push(e.path@));
                }
            },
            None => {},
        }
        i += 1;
    }
    assert(all@.take(all@.len() as int) =~= all@);
    sort_strings(results)
}

/// Get tags for a specific node from its content.
pub fn get_node_tags(content: &str) -> (res: Vec<String>)
    ensures
        res.deep_view() == tags_of(content@),
{
    parse_tags(content)
}

/// Tags strictly ascending.
pub open spec fn keys_ascending<V>(es: Seq<(Seq<char>, V)>) -> bool {
    forall|a: int, b: int| 0 <= a < b < es.len() ==> seq_lt(#[trigger] es[a].0, #[trigger] es[b].0)
}

/// `es` has an entry for `t`.
pub open spec fn has_key<V>(es: Seq<(Seq<char>, V)>, t: Seq<char>) -> bool {
    exists|k: int| 0 <= k < es.len() && #[trigger] es[k].0 == t
}

/// What the tally holds after some nodes and, of the next node, some of its tags.
spec fn tally_state(
    es: Seq<(Seq<char>, Seq<Seq<char>>)>,
    done: Seq<NodeContent>,
    partial: Seq<Seq<char>>,
    path: Seq<char>,
) -> bool {
    &&& keys_ascending(es)
    &&& forall|k: int| 0 <= k < es.len() ==> #[trigger] es[k].1 == tagged_paths(done, es[k].0) + (if partial.contains(es[k].0) {
        seq![path]
    } else {
        Seq::empty()
    })
    &&& forall|t: Seq<char>| #[trigger] has_key(es, t) <==> (tagged_paths(done, t).len() > 0 || partial.contains(t))
}

/// Position of the first entry whose tag does not come before `t`.
fn key_position(es: &Vec<(String, Vec<String>)>, t: &String) -> (res: usize)
    ensures
        res <= es@.len(),
        forall|k: int| 0 <= k < res ==> seq_lt(#[trigger] es.deep_view()[k].0, t@),
        res < es@.len() ==> !seq_lt(es.deep_view()[res as int].0, t@),
{
    let mut p: usize = 0;
    while p < es.len() && str_lt(es[p].0.as_str(), t.as_str())
        invariant
            p <= es@.len(),
            forall|k: int| 0 <= k < p ==> seq_lt(#[trigger] es.deep_view()[k].0, t@),
        decreases es@.len() - p,
    {
        assert(es.deep_view()[p as int].0 == es@[p as int].0@);
        p += 1;
    }
    if p < es.len() {
        assert(es.deep_view()[p as int].0 == es@[p as int].0@);
    }
    p
}

/// For every tag used in `nodes`, the paths of the nodes carrying it, in listing order.
fn tally(nodes: &Vec<NodeContent>) -> (res: Vec<(String, Vec<String>)>)
    ensures
        tally_state(res.deep_view(), nodes@, Seq::empty(), Seq::empty()),
{
    let mut es: Vec<(String, Vec<String>)> = Vec::new();
    let mut i: usize = 0;
    assert(nodes@.take(0) =~= Seq::<NodeContent>::empty());
    assert forall|t: Seq<char>| #[trigger] has_key(es.deep_view(), t) <==> (tagged_paths(nodes@.take(0), t).len() > 0
        || Seq::<Seq<char>>::empty().contains(t)) by {}
    while i < nodes.len()
        invariant
            i <= nodes@.len(),
            tally_state(es.deep_view(), nodes@.take(i as int), Seq::empty(), Seq::empty()),
        decreases nodes@.len() - i,
    {
        let e = &nodes[i];
        let ghost done = nodes@.take(i as int);
        assert(nodes@.take(i + 1).drop_last() =~= done);
        assert(nodes@.take(i + 1).last() == *e);
        match &e.content {
            Some(c) => {
                let tags = parse_tags(c.as_str());
                let ghost tv = tags.deep_view();
                proof {
                    lemma_tags_unique(c@);
                    assert(tv == node_tags(*e));
                    assert forall|k: int| 0 <= k < es.deep_view().len() implies #[trigger] es.deep_view()[k].1
                        == tagged_paths(done, es.deep_view()[k].0) + (if tv.take(0).contains(es.deep_view()[k].0) {
                        seq![e.path@]
                    } else {
                        Seq::empty()
                    }) by {
                        assert(tv.take(0) =~= Seq::<Seq<char>>::empty());
                        assert(tagged_paths(done, es.deep_view()[k].0) + Seq::<Seq<char>>::empty() =~= tagged_paths(done, es.deep_view()[k].0));
                    }
                    assert forall|t: Seq<char>| #[trigger] has_key(es.deep_view(), t) <==> (tagged_paths(done, t).len() > 0 || tv.take(0).contains(t)) by {
                        assert(tv.take(0) =~= Seq::<Seq<char>>::empty());
                    }
                }
                let mut j: usize = 0;
                while j < tags.len()
                    invariant
                        j <= tags@.len(),
                        tv == tags.deep_view(),
                        tv.no_duplicates(),
                        tally_state(es.deep_view(), done, tv.take(j as int), e.path@),
                    decreases tags@.len() - j,
                {
                    let t = &tags[j];
                    let ghost x = t@;
                    assert(tv[j as int] == x);
                    assert(tv.take(j + 1) =~= tv.take(j as int).push(x));
                    assert(!tv.take(j as int).contains(x)) by {
                        if tv.take(j as int).contains(x) {
                            let q = choose|q: int| 0 <= q < j && tv.take(j as int)[q] == x;
                            assert(tv[q] == tv[j as int]);
                        }
                    }
                    let p = key_position(&es, t);
                    let ghost ev = es.deep_view();
                    if p < es.len() && es[p].0 == *t {
                        assert(ev[p as int].0 == x);
                        let ghost old_es = es@;
                        let (k, mut v) = es.remove(p);
                        let ghost vdv = v.deep_view();
                        assert(vdv == ev[p as int].1);
                        v.push(e.path.clone());
                        assert(v.deep_view() =~= vdv.push(e.path@));
                        let ghost kv = k@;
                        assert(kv == x);
                        es.insert(p, (k, v));
                        proof {
                            let nv = es.deep_view();
                            assert(es@ =~= old_es.update(p as int, es@[p as int]));
                            assert forall|q: int| 0 <= q < nv.len() implies #[trigger] nv[q] == ev.update(p as int, (x, ev[p as int].1.push(e.path@)))[q] by {
                                if q != p {
                                    assert(es@[q] == old_es[q]);
                                }
                            }
                            assert(nv =~= ev.update(p as int, (x, ev[p as int].1.push(e.path@))));
                            assert forall|k: int| 0 <= k < nv.len() implies #[trigger] nv[k].1 == tagged_paths(done, nv[k].0)
                                + (if tv.take(j + 1).contains(nv[k].0) {
                                seq![e.path@]
                            } else {
                                Seq::empty()
                            }) by {
                                if k == p {
                                    assert(tv.take(j + 1).contains(x)) by {
                                        assert(tv.take(j + 1)[j as int] == x);
                                    }
                                } else {
                                    assert(nv[k] == ev[k]);
                                    if ev[k].0 == x {
                                        assert(seq_lt(ev[k].0, ev[p as int].0) || seq_lt(ev[p as int].0, ev[k].0));
                                        crate::text::lemma_lt_irreflexive(x);
                                    }
                                    lemma_contains_push(tv.take(j as int), x, nv[k].0);
                                }
                            }
                            assert forall|u: Seq<char>| #[trigger] has_key(nv, u) <==> (tagged_paths(done, u).len() > 0 || tv.take(j + 1).contains(u)) by {
                                assert(has_key(nv, u) == has_key(ev, u)) by {
                                    if has_key(ev, u) {
                                        let q = choose|q: int| 0 <= q < ev.len() && ev[q].0 == u;
                                        assert(nv[q].0 == u);
                                    }
                                    if has_key(nv, u) {
                                        let q = choose|q: int| 0 <= q < nv.len() && nv[q].0 == u;
                                        assert(ev[q].0 == u);
                                    }
                                }
                                lemma_contains_push(tv.take(j as int), x, u);
                                if u == x {
                                    assert(has_key(ev, u)) by {
                                        assert(ev[p as int].0 == u);
                                    }
                                }
                            }
                            assert(keys_ascending(nv)) by {
                                assert forall|a: int, b: int| 0 <= a < b < nv.len() implies seq_lt(#[trigger] nv[a].0, #[trigger] nv[b].0) by {
                                    assert(nv[a].0 == ev[a].0);
                                    assert(nv[b].0 == ev[b].0);
                                }
                            }
                        }
                    } else {
                        let ghost absent = !has_key(ev, x);
                        proof {
                            assert(!has_key(ev, x)) by {
                                if has_key(ev, x) {
                                    let q = choose|q: int| 0 <= q < ev.len() && ev[q].0 == x;
                                    if q < p {
                                        crate::text::lemma_lt_irreflexive(x);
                                    } else if q > p {
                                        assert(seq_lt(ev[p as int].0, ev[q].0));
                                        lemma_lt_total(ev[p as int].0, x);
                                        crate::text::lemma_lt_asymmetric(ev[p as int].0, x);
                                    }
                                    if q == p {
                                        assert(es@[p as int].0@ == x);
                                    }
                                }
                            }
                        }
                        let mut v: Vec<String> = Vec::new();
                        v.push(e.path.clone());
                        assert(v.deep_view() =~= seq![e.path@]);
                        let ghost old_es = es@;
                        es.insert(p, (t.clone(), v));
                        proof {
                            let nv = es.deep_view();
                            assert forall|q: int| 0 <= q < nv.len() implies #[trigger] nv[q] == ev.insert(p as int, (x, seq![e.path@]))[q] by {
                                if q < p {
                                    assert(es@[q] == old_es[q]);
                                } else if q > p {
                                    assert(es@[q] == old_es[q - 1]);
                                }
                            }
                            assert(nv =~= ev.insert(p as int, (x, seq![e.path@])));
                            assert(tagged_paths(done, x).len() == 0);
                            assert forall|k: int| 0 <= k < nv.len() implies #[trigger] nv[k].1 == tagged_paths(done, nv[k].0)
                                + (if tv.take(j + 1).contains(nv[k].0) {
                                seq![e.path@]
                            } else {
                                Seq::empty()
                            }) by {
                                if k == p {
                                    assert(tv.take(j + 1).contains(x)) by {
                                        assert(tv.take(j + 1)[j as int] == x);
                                    }
                                    assert(tagged_paths(done, x) =~= Seq::<Seq<char>>::empty());
                                    assert(nv[k].1 =~= tagged_paths(done, x) + seq![e.path@]);
                                } else {
                                    let k0 = if k < p { k } else { k - 1 };
                                    assert(nv[k] == ev[k0]);
                                    assert(ev[k0].0 != x) by {
                                        assert(!has_key(ev, x));
                                        if ev[k0].0 == x {
                                            assert(has_key(ev, x));
                                        }
                                    }
                                    lemma_contains_push(tv.take(j as int), x, nv[k].0);
                                }
                            }
                            assert forall|u: Seq<char>| #[trigger] has_key(nv, u) <==> (tagged_paths(done, u).len() > 0 || tv.take(j + 1).contains(u)) by {
                                lemma_contains_push(tv.take(j as int), x, u);
                                if has_key(ev, u) {
                                    let q = choose|q: int| 0 <= q < ev.len() && ev[q].0 == u;
                                    let q2 = if q < p { q } else { q + 1 };
                                    assert(nv[q2].0 == u);
                                }
                                if has_key(nv, u) {
                                    let q = choose|q: int| 0 <= q < nv.len() && nv[q].0 == u;
                                    if q < p {
                                        assert(ev[q].0 == u);
                                    } else if q > p {
                                        assert(ev[q - 1].0 == u);
                                    }
                                }
                                if u == x {
                                    assert(nv[p as int].0 == x);
                                }
                            }
                            assert(keys_ascending(nv)) by {
                                assert forall|a: int, b: int| 0 <= a < b < nv.len() implies seq_lt(#[trigger] nv[a].0, #[trigger] nv[b].0) by {
                                    if b < p {
                                        assert(seq_lt(ev[a].0, ev[b].0));
                                    } else if b == p {
                                        assert(seq_lt(ev[a].0, x));
                                    } else if a < p {
                                        assert(seq_lt(ev[a].0, ev[b - 1].0));
                                    } else if a == p {
                                        assert(ev[p as int].0 != x);
                                        lemma_lt_total(ev[p as int].0, x);
                                        if b - 1 > p {
                                            assert(seq_lt(ev[p as int].0, ev[b - 1].0));
                                            lemma_lt_transitive(x, ev[p as int].0, ev[b - 1].0);
                                        }
                                    } else {
                                        assert(seq_lt(ev[a - 1].0, ev[b - 1].0));
                                    }
                                }
                            }
                        }
                    }
                    j += 1;
                }
                proof {
                    let ev = es.deep_view();
                    assert(tv.take(tv.len() as int) =~= tv);
                    assert forall|u: Seq<char>| tagged_paths(nodes@.take(i + 1), u) == tagged_paths(done, u) + (if tv.contains(u) {
                        seq![e.path@]
                    } else {
                        Seq::empty()
                    }) by {
                        if tv.contains(u) {
                        } else {
                            assert(tagged_paths(done, u) + Seq::<Seq<char>>::empty() =~= tagged_paths(done, u));
                        }
                    }
                    assert forall|k: int| 0 <= k < ev.len() implies #[trigger] ev[k].1 == tagged_paths(nodes@.take(i + 1), ev[k].0)
                        + (if Seq::<Seq<char>>::empty().contains(ev[k].0) {
                        seq![Seq::<char>::empty()]
                    } else {
                        Seq::empty()
                    }) by {
                        assert(tagged_paths(nodes@.take(i + 1), ev[k].0) + Seq::<Seq<char>>::empty() =~= tagged_paths(nodes@.take(i + 1), ev[k].0));
                    }
                    assert forall|u: Seq<char>| #[trigger] has_key(ev, u) <==> (tagged_paths(nodes@.take(i + 1), u).len() > 0
                        || Seq::<Seq<char>>::empty().contains(u)) by {
                        if tv.contains(u) {
                            assert(tagged_paths(nodes@.take(i + 1), u).len() > 0);
                        }
                    }
                }
            },
            None => {
                proof {
                    let ev = es.deep_view();
                    assert forall|u: Seq<char>| tagged_paths(nodes@.take(i + 1), u) == tagged_paths(done, u) by {}
                }
            },
        }
        i += 1;
    }
    assert(nodes@.take(nodes@.len() as int) =~= nodes@);
    es
}

proof fn lemma_contains_push(s: Seq<Seq<char>>, x: Seq<char>, u: Seq<char>)
    ensures
        s.push(x).contains(u) == (s.contains(u) || u == x),
{
    if s.push(x).contains(u) {
        let q = choose|q: int| 0 <= q < s.push(x).len() && s.push(x)[q] == u;
        if q < s.len() {
            assert(s[q] == u);
        }
    }
    if s.contains(u) {
        let q = choose|q: int| 0 <= q < s.len() && s[q] == u;
        assert(s.push(x)[q] == u);
    }
    if u == x {
        assert(s.push(x)[s.len() as int] == u);
    }
}


// ---------------------------------------------------------------------
// The tag index
// ---------------------------------------------------------------------

/// The entry for `t` at or after position `i`.
pub open spec fn lookup<V>(es: Seq<(Seq<char>, V)>, t: Seq<char>, i: int) -> Option<V>
    decreases es.len() - i,
{
    if i < 0 || i >= es.len() {
        None
    } else if es[i].0 == t {
        Some(es[i].1)
    } else {
        lookup(es, t, i + 1)
    }
}

proof fn lemma_lookup_found<V>(es: Seq<(Seq<char>, V)>, t: Seq<char>, i: int, k: int)
    requires
        0 <= i <= k < es.len(),
        es[k].0 == t,
        forall|q: int| i <= q < k ==> #[trigger] es[q].0 != t,
    ensures
        lookup(es, t, i) == Some(es[k].1),
    decreases k - i,
{
    if i < k {
        lemma_lookup_found(es, t, i + 1, k);
    }
}

proof fn lemma_lookup_absent<V>(es: Seq<(Seq<char>, V)>, t: Seq<char>, i: int)
    requires
        0 <= i <= es.len(),
        forall|q: int| i <= q < es.len() ==> #[trigger] es[q].0 != t,
    ensures
        lookup(es, t, i) is None,
    decreases es.len() - i,
{
    if i < es.len() {
        lemma_lookup_absent(es, t, i + 1);
    }
}

/// In ascending entries, the entry for `t` is the one whose key is `t`.
pub proof fn lemma_lookup_ascending<V>(es: Seq<(Seq<char>, V)>, t: Seq<char>)
    requires
        keys_ascending(es),
    ensures
        has_key(es, t) ==> lookup(es, t, 0) == Some(es[choose|k: int| 0 <= k < es.len() && #[trigger] es[k].0 == t].1),
        !has_key(es, t) ==> lookup(es, t, 0) is None,
        forall|k: int| 0 <= k < es.len() && #[trigger] es[k].0 == t ==> lookup(es, t, 0) == Some(es[k].1),
{
    assert forall|k: int| 0 <= k < es.len() && #[trigger] es[k].0 == t implies lookup(es, t, 0) == Some(es[k].1) by {
        assert forall|q: int| 0 <= q < k implies #[trigger] es[q].0 != t by {
            assert(seq_lt(es[q].0, es[k].0));
            crate::text::lemma_lt_irreflexive(t);
        }
        lemma_lookup_found(es, t, 0, k);
    }
    if !has_key(es, t) {
        lemma_lookup_absent(es, t, 0);
    }
}

/// A tag index: for each tag, the nodes that carry it. Tags are kept in
/// ascending order, each once: a map from tag to nodes whose lookups are
/// proved (vstd's `HashMap` specification covers integer and `bool` keys
/// only, not `String`), and whose order is the display order.
#[derive(Debug)]
pub struct TagIndex {
    entries: Vec<(String, Vec<String>)>,
}

impl TagIndex {
    #[verifier::type_invariant]
    spec fn ascending(self) -> bool {
        keys_ascending(self.entries.deep_view())
    }

    /// The entries, tags ascending.
    pub closed spec fn entries_view(self) -> Seq<(Seq<char>, Seq<Seq<char>>)> {
        self.entries.deep_view()
    }

    /// The nodes listed under `tag`, if the index has it.
    pub open spec fn nodes_of(self, tag: Seq<char>) -> Option<Seq<Seq<char>>> {
        lookup(self.entries_view(), tag, 0)
    }

    /// An empty index.
    pub fn new() -> (res: Self)
        ensures
            res.entries_view() == Seq::<(Seq<char>, Seq<Seq<char>>)>::empty(),
            keys_ascending(res.entries_view()),
    {
        let res = TagIndex { entries: Vec::new() };
        assert(res.entries.deep_view() =~= Seq::<(Seq<char>, Seq<Seq<char>>)>::empty());
        res
    }

    /// Number of tags.
    pub fn len(&self) -> (res: usize)
        ensures
            res == self.entries_view().len(),
    {
        self.entries.len()
    }

    /// Whether the index has no tag.
    pub fn is_empty(&self) -> (res: bool)
        ensures
            res == (self.entries_view().len() == 0),
    {
        self.entries.len() == 0
    }

    /// Lists `nodes` under `tag`, replacing what was listed there before,
    /// which it returns.
    pub fn insert(&mut self, tag: String, nodes: Vec<String>) -> (res: Option<Vec<String>>)
        ensures
            keys_ascending(final(self).entries_view()),
            forall|t: Seq<char>| #[trigger] final(self).nodes_of(t) == (if t == tag@ {
                Some(nodes.deep_view())
            } else {
                old(self).nodes_of(t)
            }),
            match res {
                Some(v) => old(self).nodes_of(tag@) == Some(v.deep_view()),
                None => old(self).nodes_of(tag@) is None,
            },
    {
        proof {
            use_type_invariant(&*self);
        }
        let ghost ev = self.entries.deep_view();
        let ghost nv_val = nodes.deep_view();
        let p = key_position(&self.entries, &tag);
        proof {
            lemma_lookup_ascending(ev, tag@);
        }
        if p < self.entries.len() && self.entries[p].0 == tag {
            assert(ev[p as int].0 == tag@);
            let mut entries: Vec<(String, Vec<String>)> = Vec::new();
            std::mem::swap(&mut entries, &mut self.entries);
            let ghost old_es = entries@;
            let (k, old_nodes) = entries.remove(p);
            entries.insert(p, (k, nodes));
            proof {
                let nv = entries.deep_view();
                assert forall|q: int| 0 <= q < nv.len() implies #[trigger] nv[q] == ev.update(p as int, (tag@, nv_val))[q] by {
                    if q != p {
                        assert(entries@[q] == old_es[q]);
                    }
                }
                assert(nv =~= ev.update(p as int, (tag@, nv_val)));
                assert(keys_ascending(nv)) by {
                    assert forall|a: int, b: int| 0 <= a < b < nv.len() implies seq_lt(#[trigger] nv[a].0, #[trigger] nv[b].0) by {
                        assert(nv[a].0 == ev[a].0);
                        assert(nv[b].0 == ev[b].0);
                    }
                }
                lemma_lookup_ascending(nv, tag@);
                assert forall|t: Seq<char>| #[trigger] lookup(nv, t, 0) == (if t == tag@ {
                    Some(nv_val)
                } else {
                    lookup(ev, t, 0)
                }) by {
                    lemma_lookup_ascending(nv, t);
                    lemma_lookup_ascending(ev, t);
                    if t != tag@ {
                        if has_key(ev, t) {
                            let q = choose|q: int| 0 <= q < ev.len() && #[trigger] ev[q].0 == t;
                            assert(nv[q].0 == t);
                        }
                        if has_key(nv, t) {
                            let q = choose|q: int| 0 <= q < nv.len() && #[trigger] nv[q].0 == t;
                            assert(ev[q].0 == t);
                        }
                    } else {
                        assert(nv[p as int].0 == t);
                    }
                }
            }
            self.entries = entries;
            Some(old_nodes)
        } else {
            proof {
                assert(!has_key(ev, tag@)) by {
                    if has_key(ev, tag@) {
                        let q = choose|q: int| 0 <= q < ev.len() && #[trigger] ev[q].0 == tag@;
                        if q < p {
                            crate::text::lemma_lt_irreflexive(tag@);
                        } else if q > p {
                            assert(seq_lt(ev[p as int].0, ev[q].0));
                            crate::text::lemma_lt_asymmetric(ev[p as int].0, tag@);
                            lemma_lt_total(ev[p as int].0, tag@);
                        } else {
                            assert(self.entries@[p as int].0@ == tag@);
                        }
                    }
                }
            }
            let mut entries: Vec<(String, Vec<String>)> = Vec::new();
            std::mem::swap(&mut entries, &mut self.entries);
            let ghost old_es = entries@;
            let ghost tv = tag@;
            entries.insert(p, (tag, nodes));
            proof {
                let nv = entries.deep_view();
                assert forall|q: int| 0 <= q < nv.len() implies #[trigger] nv[q] == ev.insert(p as int, (tv, nv_val))[q] by {
                    if q < p {
                        assert(entries@[q] == old_es[q]);
                    } else if q > p {
                        assert(entries@[q] == old_es[q - 1]);
                    }
                }
                assert(nv =~= ev.insert(p as int, (tv, nv_val)));
                assert(keys_ascending(nv)) by {
                    assert forall|a: int, b: int| 0 <= a < b < nv.len() implies seq_lt(#[trigger] nv[a].0, #[trigger] nv[b].0) by {
                        if b < p {
                            assert(seq_lt(ev[a].0, ev[b].0));
                        } else if b == p {
                            assert(seq_lt(ev[a].0, tv));
                        } else if a < p {
                            assert(seq_lt(ev[a].0, ev[b - 1].0));
                        } else if a == p {
                            assert(ev[p as int].0 != tv) by {
                                if ev[p as int].0 == tv {
                                    assert(has_key(ev, tv));
                                }
                            }
                            lemma_lt_total(ev[p as int].0, tv);
                            if b - 1 > p {
                                assert(seq_lt(ev[p as int].0, ev[b - 1].0));
                                lemma_lt_transitive(tv, ev[p as int].0, ev[b - 1].0);
                            }
                        } else {
                            assert(seq_lt(ev[a - 1].0, ev[b - 1].0));
                        }
                    }
                }
                assert forall|t: Seq<char>| #[trigger] lookup(nv, t, 0) == (if t == tv {
                    Some(nv_val)
                } else {
                    lookup(ev, t, 0)
                }) by {
                    lemma_lookup_ascending(nv, t);
                    lemma_lookup_ascending(ev, t);
                    if t != tv {
                        if has_key(ev, t) {
                            let q = choose|q: int| 0 <= q < ev.len() && #[trigger] ev[q].0 == t;
                            let q2 = if q < p { q } else { q + 1 };
                            assert(nv[q2].0 == t);
                        }
                        if has_key(nv, t) {
                            let q = choose|q: int| 0 <= q < nv.len() && #[trigger] nv[q].0 == t;
                            if q < p {
                                assert(ev[q].0 == t);
                            } else if q > p {
                                assert(ev[q - 1].0 == t);
                            }
                        }
                    } else {
                        assert(nv[p as int].0 == t);
                    }
                }
            }
            self.entries = entries;
            None
        }
    }

    /// The nodes listed under `tag`.
    pub fn get(&self, tag: &str) -> (res: Option<&Vec<String>>)
        ensures
            match res {
                Some(v) => self.nodes_of(tag@) == Some(v.deep_view()),
                None => self.nodes_of(tag@) is None,
            },
    {
        proof {
            use_type_invariant(self);
            lemma_lookup_ascending(self.entries.deep_view(), tag@);
        }
        let t = String::from_str(tag);
        let mut i: usize = 0;
        while i < self.entries.len()
            invariant
                i <= self.entries@.len(),
                t@ == tag@,
                forall|q: int| 0 <= q < i ==> #[trigger] self.entries.deep_view()[q].0 != tag@,
            decreases self.entries@.len() - i,
        {
            assert(self.entries.deep_view()[i as int].0 == self.entries@[i as int].0@);
            if self.entries[i].0 == t {
                proof {
                    lemma_lookup_found(self.entries.deep_view(), tag@, 0, i as int);
                }
                return Some(&self.entries[i].1);
            }
            i += 1;
        }
        proof {
            lemma_lookup_absent(self.entries.deep_view(), tag@, 0);
        }
        None
    }
}

/// Build a tag index: each tag used by a readable node of the listing, with
/// the paths of the nodes that carry it, sorted.
pub fn build_tag_index(nodes: &Vec<NodeContent>) -> (res: TagIndex)
    ensures
        keys_ascending(res.entries_view()),
        forall|k: int|
            0 <= k < res.entries_view().len() ==> #[trigger] res.entries_view()[k].1 == sort_by_insertion(
                tagged_paths(nodes@, res.entries_view()[k].0),
                text_before(),
            ),
        forall|t: Seq<char>| #[trigger] has_key(res.entries_view(), t) <==> tagged_paths(nodes@, t).len() > 0,
        forall|t: Seq<char>| #[trigger] res.nodes_of(t) == (if tagged_paths(nodes@, t).len() > 0 {
            Some(sort_by_insertion(tagged_paths(nodes@, t), text_before()))
        } else {
            None
        }),
{
    let es = tally(nodes);
    let ghost ev = es.deep_view();
    let mut out: Vec<(String, Vec<String>)> = Vec::new();
    let mut i: usize = 0;
    let n = es.len();
    while i < n
        invariant
            n == ev.len(),
            ev == es.deep_view(),
            i <= n,
            out@.len() == i,
            forall|q: int| 0 <= q < i ==> #[trigger] out.deep_view()[q] == (ev[q].0, sort_by_insertion(ev[q].1, text_before())),
        decreases n - i,
    {
        let tag = es[i].0.clone();
        let list = crate::text::clone_strings(&es[i].1);
        assert(ev[i as int] == es@[i as int].deep_view());
        let sorted = sort_strings(list);
        let ghost old_out = out@;
        let ghost old_dv = out.deep_view();
        let ghost tag_v = tag@;
        let ghost sorted_v = sorted.deep_view();
        assert(tag_v == ev[i as int].0);
        out.push((tag, sorted));
        proof {
            assert(out@[i as int].deep_view() == (tag_v, sorted_v));
            assert(out.deep_view()[i as int] == (ev[i as int].0, sort_by_insertion(ev[i as int].1, text_before())));
            assert forall|q: int| 0 <= q < i + 1 implies #[trigger] out.deep_view()[q] == (ev[q].0, sort_by_insertion(ev[q].1, text_before())) by {
                if q < i {
                    assert(out@[q] == old_out[q]);
                    assert(out.deep_view()[q] == old_dv[q]);
                }
            }
        }
        i += 1;
    }
    proof {
        let ov = out.deep_view();
        assert(keys_ascending(ov)) by {
            assert forall|a: int, b: int| 0 <= a < b < ov.len() implies seq_lt(#[trigger] ov[a].0, #[trigger] ov[b].0) by {
                assert(ov[a].0 == ev[a].0);
                assert(ov[b].0 == ev[b].0);
            }
        }
    }
    let res = TagIndex { entries: out };
    proof {
        let ov = out.deep_view();
        assert forall|t: Seq<char>| #[trigger] res.nodes_of(t) == (if tagged_paths(nodes@, t).len() > 0 {
            Some(sort_by_insertion(tagged_paths(nodes@, t), text_before()))
        } else {
            None
        }) by {
            lemma_lookup_ascending(ov, t);
            if has_key(ov, t) {
                let q = choose|q: int| 0 <= q < ov.len() && #[trigger] ov[q].0 == t;
                assert(ev[q].0 == t);
                assert(has_key(ev, t));
                assert(ev[q].1 =~= tagged_paths(nodes@, t));
            } else {
                if has_key(ev, t) {
                    let q = choose|q: int| 0 <= q < ev.len() && #[trigger] ev[q].0 == t;
                    assert(ov[q].0 == t);
                }
            }
        }
        assert forall|k: int| 0 <= k < ov.len() implies #[trigger] ov[k].1 == sort_by_insertion(
            tagged_paths(nodes@, ov[k].0),
            text_before(),
        ) by {
            assert(ov[k].0 == ev[k].0);
            assert(has_key(ev, ev[k].0));
            assert(ev[k].1 =~= tagged_paths(nodes@, ev[k].0));
        }
        assert forall|t: Seq<char>| #[trigger] has_key(ov, t) <==> tagged_paths(nodes@, t).len() > 0 by {
            if has_key(ov, t) {
                let q = choose|q: int| 0 <= q < ov.len() && #[trigger] ov[q].0 == t;
                assert(ev[q].0 == t);
                assert(has_key(ev, t));
            }
            if has_key(ev, t) {
                let q = choose|q: int| 0 <= q < ev.len() && #[trigger] ev[q].0 == t;
                assert(ov[q].0 == t);
            }
        }
    }
    res
}

/// Get all tags used in the listing with the number of nodes carrying each.
///
/// Returns tags sorted alphabetically.
pub fn list_tags(nodes: &Vec<NodeContent>) -> (res: Vec<(String, usize)>)
    ensures
        keys_ascending(res.deep_view()),
        forall|k: int| 0 <= k < res@.len() ==> #[trigger] res.deep_view()[k].1 == tagged_paths(nodes@, res.deep_view()[k].0).len(),
        forall|t: Seq<char>| #[trigger] has_key(res.deep_view(), t) <==> tagged_paths(nodes@, t).len() > 0,
{
    let es = tally(nodes);
    let ghost ev = es.deep_view();
    let mut out: Vec<(String, usize)> = Vec::new();
    let mut i: usize = 0;
    while i < es.len()
        invariant
            ev == es.deep_view(),
            i <= es@.len(),
            out@.len() == i,
            forall|q: int| 0 <= q < i ==> #[trigger] out.deep_view()[q].0 == ev[q].0 && out.deep_view()[q].1 == ev[q].1.len(),
        decreases es@.len() - i,
    {
        let ghost old_out = out@;
        let ghost old_dv = out.deep_view();
        let key = es[i].0.clone();
        let count = es[i].1.len();
        assert(key@ == ev[i as int].0);
        assert(ev[i as int].1.len() == es@[i as int].1@.len());
        out.push((key, count));
        proof {
            assert(out@[i as int].deep_view() == (ev[i as int].0, count));
            assert forall|q: int| 0 <= q < i + 1 implies #[trigger] out.deep_view()[q].0 == ev[q].0 && out.deep_view()[q].1 == ev[q].1.len() by {
                if q < i {
                    assert(out@[q] == old_out[q]);
                    assert(out.deep_view()[q] == old_dv[q]);
                }
            }
        }
        i += 1;
    }
    proof {
        let ov = out.deep_view();
        assert forall|a: int, b: int| 0 <= a < b < ov.len() implies seq_lt(#[trigger] ov[a].0, #[trigger] ov[b].0) by {
            assert(ov[a].0 == ev[a].0);
            assert(ov[b].0 == ev[b].0);
        }
        assert forall|k: int| 0 <= k < out@.len() implies #[trigger] ov[k].1 == tagged_paths(nodes@, ov[k].0).len() by {
            assert(ev[k].1 == tagged_paths(nodes@, ev[k].0) + Seq::<Seq<char>>::empty());
            assert(ev[k].1 =~= tagged_paths(nodes@, ev[k].0));
            assert(ev[k].1.len() == es@[k].1@.len());
        }
        assert forall|t: Seq<char>| #[trigger] has_key(ov, t) <==> tagged_paths(nodes@, t).len() > 0 by {
            assert(has_key(ev, t) <==> tagged_paths(nodes@, t).len() > 0);
            if has_key(ev, t) {
                let q = choose|q: int| 0 <= q < ev.len() && #[trigger] ev[q].0 == t;
                assert(ov[q].0 == t);
            }
            if has_key(ov, t) {
                let q = choose|q: int| 0 <= q < ov.len() && #[trigger] ov[q].0 == t;
                assert(ev[q].0 == t);
            }
        }
    }
    out
}


/// The lines listing nodes under a tag.
pub open spec fn node_lines(ns: Seq<Seq<char>>) -> Seq<char>
    decreases ns.len(),
{
    if ns.len() == 0 {
        Seq::empty()
    } else {
        node_lines(ns.drop_last()) + "  - "@ + ns.last() + "\n"@
    }
}

/// One tag of the index: `#tag (n node[s])` and its nodes.
pub open spec fn tag_entry_text(e: (Seq<char>, Seq<Seq<char>>)) -> Seq<char> {
    "#"@ + e.0 + " ("@ + dec(e.1.len()) + " "@ + (if e.1.len() == 1 {
        "node"@
    } else {
        "nodes"@
    }) + ")\n"@ + node_lines(e.1)
}

pub open spec fn entries_text(es: Seq<(Seq<char>, Seq<Seq<char>>)>) -> Seq<char>
    decreases es.len(),
{
    if es.len() == 0 {
        Seq::empty()
    } else {
        entries_text(es.drop_last()) + tag_entry_text(es.last())
    }
}

/// The display of a tag index: its tags in ascending order with their nodes.
pub open spec fn tag_index_text(es: Seq<(Seq<char>, Seq<Seq<char>>)>) -> Seq<char> {
    if es.len() == 0 {
        "No tags found."@
    } else {
        entries_text(es)
    }
}

/// Format tag index for display.
pub fn format_tag_index(index: &TagIndex) -> (res: String)
    ensures
        res@ == tag_index_text(index.entries_view()),
{
    if index.entries.len() == 0 {
        return String::from_str("No tags found.");
    }
    let ghost ev = index.entries.deep_view();
    let mut output = String::new();
    let mut i: usize = 0;
    assert(ev.take(0) =~= Seq::<(Seq<char>, Seq<Seq<char>>)>::empty());
    while i < index.entries.len()
        invariant
            ev == index.entries.deep_view(),
            i <= ev.len(),
            output@ == entries_text(ev.take(i as int)),
        decreases ev.len() - i,
    {
        let tag = &index.entries[i].0;
        let nodes = &index.entries[i].1;
        let ghost e = ev[i as int];
        assert(e == (tag@, nodes.deep_view()));
        assert(ev.take(i + 1).drop_last() =~= ev.take(i as int));
        let ghost start = output@;
        output.append("#");
        output.append(tag.as_str());
        output.append(" (");
        push_usize(&mut output, nodes.len());
        output.append(" ");
        if nodes.len() == 1 {
            output.append("node");
        } else {
            output.append("nodes");
        }
        output.append(")\n");
        let ghost head = output@;
        let mut k: usize = 0;
        assert(nodes.deep_view().take(0) =~= Seq::<Seq<char>>::empty());
        while k < nodes.len()
            invariant
                k <= nodes@.len(),
                output@ == head + node_lines(nodes.deep_view().take(k as int)),
            decreases nodes@.len() - k,
        {
            assert(nodes.deep_view().take(k + 1).drop_last() =~= nodes.deep_view().take(k as int));
            assert(nodes.deep_view()[k as int] == nodes@[k as int]@);
            output.append("  - ");
            output.append(nodes[k].as_str());
            output.append("\n");
            k += 1;
        }
        assert(nodes.deep_view().take(nodes@.len() as int) =~= nodes.deep_view());
        assert(output@ =~= start + tag_entry_text(e));
        i += 1;
    }
    assert(ev.take(ev.len() as int) =~= ev);
    output
}

} // verus!
