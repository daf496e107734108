//! Properties of the library as a whole, across its functions.
use vstd::prelude::*;
use vstd::relations::sorted_by;

use crate::link::{backlink_sources, link_at, link_targets_from, link_text, links_of, links_to, lemma_link_close};
use crate::node::NodeContent;
use crate::search::{all_hits, escaped, hit_before, line_hits, node_hits, ordered_hits, regex_is_match, result_limit, search_pattern};
use crate::size::{
    count_category, larger_first, readable_sizes, size_of, sizes_by_bytes, stats_match, total_bytes_of, total_tokens_of, SizeCategory, SizeView, VaultStats,
};
use crate::survey::{dir_of, info_before, infos, last_slash, more_first};
use crate::hippocampus::{pair_paths, plan_writes, read_pairs, reads_links_of, relevant_from, ExtractionOp};
use crate::index::{index_for, index_text, lemma_index_for, tag_listing};
use crate::search::hit_paths;
use crate::structured::{
    document_tree, find_in, first_named, hash_run, heading_of, join_lines, lemma_hash_run, trailing_newlines, outline_forest, outline_tree, parse_lines, parse_step, preamble_of,
    sections_in, trim_newlines, Tree,
};
use crate::tags::{is_fence, lemma_lookup_ascending, lookup, has_key, keys_ascending, lemma_tags_unique, strip_hash, tagged_paths, tags_of};
use crate::text::{
    contains_sub, dedup_adjacent, find_char_from, lemma_find_char_from_first, insert_pos, lemma_insert_pos_bounds, lemma_lt_asymmetric,
    lemma_lt_irreflexive, lemma_lt_transitive, lemma_sort_contains, lemma_sort_len, lemma_sort_multiset,
    lemma_sort_sorted, lines, occurs_at, seq_lt, sort_by_insertion, text_before, text_le, trim, trim_start, is_ws,
};

verus! {

/// Each element comes strictly before the next: ascending, none twice.
pub open spec fn strictly_ascending(s: Seq<Seq<char>>) -> bool {
    forall|i: int, j: int| 0 <= i < j < s.len() ==> seq_lt(#[trigger] s[i], #[trigger] s[j])
}

proof fn lemma_dedup_adjacent_last<T>(s: Seq<T>)
    requires
        s.len() > 0,
    ensures
        dedup_adjacent(s).len() > 0,
        dedup_adjacent(s).last() == s.last(),
{
}

proof fn lemma_dedup_adjacent_subset<T>(s: Seq<T>, x: T)
    requires
        dedup_adjacent(s).contains(x),
    ensures
        s.contains(x),
    decreases s.len(),
{
    let r = dedup_adjacent(s.drop_last());
    if r.contains(x) {
        lemma_dedup_adjacent_subset(s.drop_last(), x);
        let k = choose|k: int| 0 <= k < s.drop_last().len() && s.drop_last()[k] == x;
        assert(s[k] == x);
    } else {
        assert(x == s.last());
        assert(s[s.len() - 1] == x);
    }
}

proof fn lemma_dedup_adjacent_ascending(s: Seq<Seq<char>>)
    requires
        sorted_by(s, text_le()),
    ensures
        strictly_ascending(dedup_adjacent(s)),
    decreases s.len(),
{
    if s.len() > 0 {
        let t = s.drop_last();
        assert(sorted_by(t, text_le())) by {
            assert forall|i: int, j: int| 0 <= i < j < t.len() implies #[trigger] text_le()(t[i], t[j]) by {
                assert(text_le()(s[i], s[j]));
            }
        }
        lemma_dedup_adjacent_ascending(t);
        let r = dedup_adjacent(t);
        if r.len() > 0 && r.last() != s.last() {
            lemma_dedup_adjacent_last(t);
            assert(text_le()(s[s.len() - 2], s[s.len() - 1]));
            assert(seq_lt(r.last(), s.last()));
            let u = r.push(s.last());
            assert forall|i: int, j: int| 0 <= i < j < u.len() implies seq_lt(#[trigger] u[i], #[trigger] u[j]) by {
                if j == u.len() - 1 {
                    if i < r.len() - 1 {
                        assert(seq_lt(r[i], r[r.len() - 1]));
                        lemma_lt_transitive(r[i], r.last(), s.last());
                    }
                } else {
                    assert(seq_lt(r[i], r[j]));
                }
            }
        }
    }
}

/// `parse_links` gives each link target once, in ascending order.
pub proof fn law_links_ascending(content: Seq<char>)
    ensures
        strictly_ascending(links_of(content)),
{
    lemma_sort_sorted(link_targets_from(content, 0));
    lemma_dedup_adjacent_ascending(sort_by_insertion(link_targets_from(content, 0), text_before()));
}

/// `parse_tags` gives each tag once, in ascending order.
pub proof fn law_tags_ascending(content: Seq<char>)
    ensures
        strictly_ascending(tags_of(content)),
{
    lemma_tags_unique(content);
    let s = tags_of(content);
    crate::text::lemma_sort_sorted(crate::text::dedup_keep_first(crate::tags::tag_occurrences(crate::text::lines(content))));
    assert forall|i: int, j: int| 0 <= i < j < s.len() implies seq_lt(#[trigger] s[i], #[trigger] s[j]) by {
        assert(text_le()(s[i], s[j]));
        assert(s[i] != s[j]);
    }
}

proof fn lemma_targets_are_written(s: Seq<char>, i: int, t: Seq<char>)
    requires
        link_targets_from(s, i).contains(t),
    ensures
        contains_sub(s, link_text(t)),
    decreases s.len() - i,
{
    if 0 <= i < s.len() {
        match link_at(s, i) {
            Some(k) => {
                lemma_link_close(s, i + 3);
                let rest = link_targets_from(s, k + 2);
                let first = s.subrange(i + 2, k);
                assert(link_targets_from(s, i) == seq![first] + rest);
                if t == first {
                    reveal_strlit("[[");
                    reveal_strlit("]]");
                    assert(s.subrange(i, i + link_text(t).len()) =~= link_text(t));
                    assert(occurs_at(s, link_text(t), i));
                } else {
                    let q = choose|q: int| 0 <= q < (seq![first] + rest).len() && (seq![first] + rest)[q] == t;
                    assert(rest[q - 1] == t);
                    lemma_targets_are_written(s, k + 2, t);
                }
            },
            None => {
                lemma_targets_are_written(s, i + 1, t);
            },
        }
    }
}

proof fn lemma_linking_node_in_sources(all: Seq<NodeContent>, i: int, target: Seq<char>)
    requires
        0 <= i < all.len(),
        links_to(all[i], target),
    ensures
        backlink_sources(all, target).contains(all[i].path@),
    decreases all.len(),
{
    let r = backlink_sources(all.drop_last(), target);
    if i == all.len() - 1 {
        assert(backlink_sources(all, target) == r.push(all[i].path@));
        assert(backlink_sources(all, target)[r.len() as int] == all[i].path@);
    } else {
        assert(all.drop_last()[i] == all[i]);
        lemma_linking_node_in_sources(all.drop_last(), i, target);
        let q = choose|q: int| 0 <= q < r.len() && r[q] == all[i].path@;
        if links_to(all.last(), target) {
            assert(backlink_sources(all, target)[q] == all[i].path@);
        }
    }
}

/// Links are bidirectional: a node whose text links to `target` is among the
/// backlinks of `target` (unless it is `target` itself).
pub proof fn law_link_gives_backlink(all: Seq<NodeContent>, i: int, target: Seq<char>)
    requires
        0 <= i < all.len(),
        all[i].text() matches Some(c) && links_of(c).contains(target),
        all[i].path@ != target,
    ensures
        sort_by_insertion(backlink_sources(all, target), text_before()).contains(all[i].path@),
{
    let c = all[i].text()->0;
    let targets = link_targets_from(c, 0);
    lemma_dedup_adjacent_subset(sort_by_insertion(targets, text_before()), target);
    lemma_sort_contains(targets, text_before(), target);
    lemma_targets_are_written(c, 0, target);
    lemma_linking_node_in_sources(all, i, target);
    lemma_sort_contains(backlink_sources(all, target), text_before(), all[i].path@);
}

proof fn lemma_sources_not_target(all: Seq<NodeContent>, target: Seq<char>)
    ensures
        !backlink_sources(all, target).contains(target),
    decreases all.len(),
{
    if all.len() > 0 {
        lemma_sources_not_target(all.drop_last(), target);
        let r = backlink_sources(all.drop_last(), target);
        if links_to(all.last(), target) {
            assert forall|q: int| 0 <= q < r.len() + 1 implies r.push(all.last().path@)[q] != target by {
                if q < r.len() {
                    assert(r.push(all.last().path@)[q] == r[q]);
                }
            }
        }
    }
}

/// A node is never its own backlink.
pub proof fn law_no_self_backlink(all: Seq<NodeContent>, target: Seq<char>)
    ensures
        !sort_by_insertion(backlink_sources(all, target), text_before()).contains(target),
{
    lemma_sources_not_target(all, target);
    lemma_sort_contains(backlink_sources(all, target), text_before(), target);
}

// ---------------------------------------------------------------------
// Sorting
// ---------------------------------------------------------------------

/// `before` is a strict order: never `a` before itself, and transitive.
pub open spec fn strict_order<T>(before: spec_fn(T, T) -> bool) -> bool {
    &&& forall|a: T| !#[trigger] before(a, a)
    &&& forall|a: T, b: T, c: T| #[trigger] before(a, b) && #[trigger] before(b, c) ==> before(a, c)
}

/// No element must come before one that stands earlier.
pub open spec fn no_inversions<T>(s: Seq<T>, before: spec_fn(T, T) -> bool) -> bool {
    forall|i: int, j: int| 0 <= i < j < s.len() ==> !before(#[trigger] s[j], #[trigger] s[i])
}

/// Sorting by a strict order leaves no element after one it must precede.
pub proof fn lemma_sort_no_inversions<T>(s: Seq<T>, before: spec_fn(T, T) -> bool)
    requires
        strict_order(before),
    ensures
        no_inversions(sort_by_insertion(s, before), before),
    decreases s.len(),
{
    if s.len() > 0 {
        lemma_sort_no_inversions(s.drop_last(), before);
        let t = sort_by_insertion(s.drop_last(), before);
        let x = s.last();
        lemma_insert_pos_bounds(t, x, before, 0);
        let p = insert_pos(t, x, before, 0);
        let u = t.insert(p, x);
        assert(sort_by_insertion(s, before) == u);
        assert forall|i: int, j: int| 0 <= i < j < u.len() implies !before(#[trigger] u[j], #[trigger] u[i]) by {
            if j < p {
                assert(u[i] == t[i] && u[j] == t[j]);
            } else if j == p {
                assert(u[i] == t[i]);
            } else if i == p {
                assert(u[j] == t[j - 1]);
                if before(t[j - 1], x) {
                    assert(before(x, t[p]));
                    assert(before(t[j - 1], t[p]));
                    if j - 1 == p {
                        assert(!before(t[p], t[p]));
                    }
                }
            } else if i < p {
                assert(u[i] == t[i] && u[j] == t[j - 1]);
            } else {
                assert(u[i] == t[i - 1] && u[j] == t[j - 1]);
            }
        }
    }
}

// ---------------------------------------------------------------------
// Search
// ---------------------------------------------------------------------

proof fn lemma_hit_order()
    ensures
        strict_order(hit_before()),
{
    assert forall|a: (Seq<char>, int, Seq<char>)| !#[trigger] hit_before()(a, a) by {
        lemma_lt_irreflexive(a.0);
    }
    assert forall|a: (Seq<char>, int, Seq<char>), b: (Seq<char>, int, Seq<char>), c: (Seq<char>, int, Seq<char>)|
        #[trigger] hit_before()(a, b) && #[trigger] hit_before()(b, c) implies hit_before()(a, c) by {
        if seq_lt(a.0, b.0) && seq_lt(b.0, c.0) {
            lemma_lt_transitive(a.0, b.0, c.0);
        }
    }
}

/// A search returns at most `max_results` matches, and as many as it found
/// up to that limit.
pub proof fn law_search_bounded(hits: Seq<(Seq<char>, int, Seq<char>)>, max_results: nat)
    ensures
        ordered_hits(hits, max_results).len() <= max_results,
        ordered_hits(hits, max_results).len() == if hits.len() < max_results {
            hits.len()
        } else {
            max_results
        },
{
    lemma_sort_len(hits, hit_before());
}

/// When a search finds fewer matches than its limit, it returns them sorted
/// by path, then by line number.
pub proof fn law_search_sorted(hits: Seq<(Seq<char>, int, Seq<char>)>, max_results: nat)
    requires
        hits.len() < result_limit(max_results),
    ensures
        no_inversions(ordered_hits(hits, max_results), hit_before()),
{
    lemma_hit_order();
    lemma_sort_no_inversions(hits, hit_before());
}

/// A match of a node: a line of a readable node of the listing, with its
/// number counted from 1, that the pattern matches.
pub open spec fn is_match_in(nodes: Seq<NodeContent>, pattern: Seq<char>, h: (Seq<char>, int, Seq<char>)) -> bool {
    exists|k: int| #[trigger] match_at(nodes, pattern, h, k)
}

/// `h` is a match in the `k`-th node of the listing.
pub open spec fn match_at(nodes: Seq<NodeContent>, pattern: Seq<char>, h: (Seq<char>, int, Seq<char>), k: int) -> bool {
    &&& 0 <= k < nodes.len()
    &&& nodes[k].path@ == h.0
    &&& nodes[k].text() matches Some(c) && (1 <= h.1 <= lines(c).len() && lines(c)[h.1 - 1] == h.2)
    &&& regex_is_match(pattern, h.2)
}

proof fn lemma_line_hits_sound(path: Seq<char>, ls: Seq<Seq<char>>, pattern: Seq<char>, h: (Seq<char>, int, Seq<char>))
    requires
        line_hits(path, ls, pattern).contains(h),
    ensures
        h.0 == path && 1 <= h.1 <= ls.len() && ls[h.1 - 1] == h.2 && regex_is_match(pattern, h.2),
    decreases ls.len(),
{
    let r = line_hits(path, ls.drop_last(), pattern);
    if r.contains(h) {
        lemma_line_hits_sound(path, ls.drop_last(), pattern, h);
        assert(ls.drop_last()[h.1 - 1] == ls[h.1 - 1]);
    } else {
        assert(regex_is_match(pattern, ls.last()));
        assert(h == (path, ls.len() as int, ls.last()));
    }
}

proof fn lemma_all_hits_sound(nodes: Seq<NodeContent>, pattern: Seq<char>, h: (Seq<char>, int, Seq<char>))
    requires
        all_hits(nodes, pattern).contains(h),
    ensures
        is_match_in(nodes, pattern, h),
    decreases nodes.len(),
{
    let r = all_hits(nodes.drop_last(), pattern);
    let e = nodes.last();
    let q = choose|q: int| 0 <= q < all_hits(nodes, pattern).len() && all_hits(nodes, pattern)[q] == h;
    if q < r.len() {
        assert(r[q] == h);
        lemma_all_hits_sound(nodes.drop_last(), pattern, h);
        let k = choose|k: int| #[trigger] match_at(nodes.drop_last(), pattern, h, k);
        assert(nodes[k] == nodes.drop_last()[k]);
        assert(match_at(nodes, pattern, h, k));
    } else {
        let c = e.text()->0;
        assert(node_hits(e, pattern)[q - r.len()] == h);
        lemma_line_hits_sound(e.path@, lines(c), pattern, h);
        assert(nodes[nodes.len() - 1] == e);
        assert(match_at(nodes, pattern, h, nodes.len() - 1));
    }
}

/// Every match a search returns is a line of a readable node of the listing
/// that the pattern matches, with its line number.
pub proof fn law_search_sound(nodes: Seq<NodeContent>, pattern: Seq<char>, max_results: nat, i: int)
    requires
        0 <= i < ordered_hits(all_hits(nodes, pattern), max_results).len(),
    ensures
        is_match_in(nodes, pattern, ordered_hits(all_hits(nodes, pattern), max_results)[i]),
{
    let hits = all_hits(nodes, pattern);
    let h = ordered_hits(hits, max_results)[i];
    if hits.len() >= result_limit(max_results) {
        assert(hits[i] == h);
    } else {
        lemma_sort_contains(hits, hit_before(), h);
        assert(sort_by_insertion(hits, hit_before())[i] == h);
    }
    lemma_all_hits_sound(nodes, pattern, h);
}

// ---------------------------------------------------------------------
// Survey
// ---------------------------------------------------------------------

/// The survey lists every node of the listing once, sorted by path, and a
/// node is an orphan exactly when it has neither outgoing links nor backlinks.
pub proof fn law_survey_nodes(nodes: Seq<NodeContent>)
    ensures
        sort_by_insertion(infos(nodes), info_before()).len() == nodes.len(),
        no_inversions(sort_by_insertion(infos(nodes), info_before()), info_before()),
        forall|k: int|
            0 <= k < nodes.len() ==> {
                let x = #[trigger] sort_by_insertion(infos(nodes), info_before())[k];
                x.3 <==> (x.1 == 0 && x.2 == 0)
            },
{
    lemma_sort_len(infos(nodes), info_before());
    assert(strict_order(info_before())) by {
        assert forall|a: (Seq<char>, nat, nat, bool)| !#[trigger] info_before()(a, a) by {
            lemma_lt_irreflexive(a.0);
        }
        assert forall|a: (Seq<char>, nat, nat, bool), b: (Seq<char>, nat, nat, bool), c: (Seq<char>, nat, nat, bool)|
            #[trigger] info_before()(a, b) && #[trigger] info_before()(b, c) implies info_before()(a, c) by {
            lemma_lt_transitive(a.0, b.0, c.0);
        }
    }
    lemma_sort_no_inversions(infos(nodes), info_before());
    let u = sort_by_insertion(infos(nodes), info_before());
    assert forall|k: int| 0 <= k < nodes.len() implies {
        let x = #[trigger] u[k];
        x.3 <==> (x.1 == 0 && x.2 == 0)
    } by {
        lemma_sort_contains(infos(nodes), info_before(), u[k]);
        let q = choose|q: int| 0 <= q < infos(nodes).len() && infos(nodes)[q] == u[k];
        assert(infos(nodes)[q] == crate::survey::info_of(nodes, nodes[q]));
    }
}

/// The dense hubs come most referenced first.
pub proof fn law_hubs_descending(is: Seq<(Seq<char>, nat)>)
    ensures
        no_inversions(sort_by_insertion(is, more_first()), more_first()),
{
    lemma_sort_no_inversions(is, more_first());
}

// ---------------------------------------------------------------------
// Sizes
// ---------------------------------------------------------------------

proof fn lemma_categories_sum(s: Seq<SizeView>)
    ensures
        count_category(s, SizeCategory::Tiny) + count_category(s, SizeCategory::Small) + count_category(
            s,
            SizeCategory::Medium,
        ) + count_category(s, SizeCategory::Large) == s.len(),
    decreases s.len(),
{
    if s.len() > 0 {
        lemma_categories_sum(s.drop_last());
    }
}

/// Every node counted by the statistics falls in exactly one size category.
pub proof fn law_stats_categories(st: VaultStats, nodes: Seq<NodeContent>)
    requires
        stats_match(st, nodes),
    ensures
        st.tiny_count + st.small_count + st.medium_count + st.large_count == st.node_count,
{
    lemma_categories_sum(sizes_by_bytes(nodes));
}

/// Sizes come largest first, and the largest node has no smaller size than any.
pub proof fn law_sizes_descending(nodes: Seq<NodeContent>)
    ensures
        no_inversions(sizes_by_bytes(nodes), larger_first()),
        forall|k: int| 0 <= k < sizes_by_bytes(nodes).len() ==> #[trigger] sizes_by_bytes(nodes)[k].bytes <= sizes_by_bytes(nodes)[0].bytes,
{
    lemma_sort_no_inversions(crate::size::readable_sizes(nodes), larger_first());
    let s = sizes_by_bytes(nodes);
    assert forall|k: int| 0 <= k < s.len() implies #[trigger] s[k].bytes <= s[0].bytes by {
        if k > 0 {
            assert(!larger_first()(s[k], s[0]));
        }
    }
}

// ---------------------------------------------------------------------
// Tags
// ---------------------------------------------------------------------

proof fn lemma_same_keys_equal<V>(l1: Seq<(Seq<char>, V)>, l2: Seq<(Seq<char>, V)>)
    requires
        keys_ascending(l1),
        keys_ascending(l2),
        forall|t: Seq<char>| has_key(l1, t) <==> has_key(l2, t),
        forall|a: int, b: int|
            0 <= a < l1.len() && 0 <= b < l2.len() && #[trigger] l1[a].0 == #[trigger] l2[b].0 ==> l1[a].1 == l2[b].1,
    ensures
        l1 == l2,
    decreases l1.len(),
{
    if l1.len() == 0 {
        if l2.len() > 0 {
            assert(has_key(l2, l2[0].0));
        }
        assert(l1 =~= l2);
    } else {
        assert(has_key(l1, l1[0].0));
        assert(has_key(l2, l1[0].0));
        let b = choose|b: int| 0 <= b < l2.len() && #[trigger] l2[b].0 == l1[0].0;
        assert(has_key(l2, l2[0].0));
        assert(has_key(l1, l2[0].0));
        let a = choose|a: int| 0 <= a < l1.len() && #[trigger] l1[a].0 == l2[0].0;
        if a > 0 && b > 0 {
            assert(seq_lt(l1[0].0, l1[a].0));
            assert(seq_lt(l2[0].0, l2[b].0));
            lemma_lt_asymmetric(l1[0].0, l2[0].0);
        }
        assert(l1[0].0 == l2[0].0);
        let r1 = l1.drop_first();
        let r2 = l2.drop_first();
        assert forall|t: Seq<char>| has_key(r1, t) <==> has_key(r2, t) by {
            if has_key(r1, t) {
                let k = choose|k: int| 0 <= k < r1.len() && #[trigger] r1[k].0 == t;
                assert(l1[k + 1].0 == t);
                assert(seq_lt(l1[0].0, l1[k + 1].0));
                lemma_lt_irreflexive(t);
                assert(has_key(l1, t));
                let q = choose|q: int| 0 <= q < l2.len() && #[trigger] l2[q].0 == t;
                assert(q != 0);
                assert(r2[q - 1].0 == t);
            }
            if has_key(r2, t) {
                let k = choose|k: int| 0 <= k < r2.len() && #[trigger] r2[k].0 == t;
                assert(l2[k + 1].0 == t);
                assert(seq_lt(l2[0].0, l2[k + 1].0));
                lemma_lt_irreflexive(t);
                assert(has_key(l2, t));
                let q = choose|q: int| 0 <= q < l1.len() && #[trigger] l1[q].0 == t;
                assert(q != 0);
                assert(r1[q - 1].0 == t);
            }
        }
        assert forall|a: int, b: int| 0 <= a < r1.len() && 0 <= b < r2.len() && #[trigger] r1[a].0 == #[trigger] r2[b].0 implies r1[a].1 == r2[b].1 by {
            assert(l1[a + 1].0 == l2[b + 1].0);
        }
        assert(keys_ascending(r1)) by {
            assert forall|x: int, y: int| 0 <= x < y < r1.len() implies seq_lt(#[trigger] r1[x].0, #[trigger] r1[y].0) by {
                assert(seq_lt(l1[x + 1].0, l1[y + 1].0));
            }
        }
        assert(keys_ascending(r2)) by {
            assert forall|x: int, y: int| 0 <= x < y < r2.len() implies seq_lt(#[trigger] r2[x].0, #[trigger] r2[y].0) by {
                assert(seq_lt(l2[x + 1].0, l2[y + 1].0));
            }
        }
        lemma_same_keys_equal(r1, r2);
        assert(l1[0] == l2[0]);
        assert(l1 =~= seq![l1[0]] + r1);
        assert(l2 =~= seq![l2[0]] + r2);
    }
}

/// A listing has one tag listing: the tags in use, ascending, each with the
/// number of nodes carrying it. `list_tags`, the index and `tags list` speak
/// of this one listing.
pub proof fn law_tag_listing_unique(nodes: Seq<NodeContent>, l1: Seq<(Seq<char>, nat)>, l2: Seq<(Seq<char>, nat)>)
    requires
        tag_listing(nodes, l1),
        tag_listing(nodes, l2),
    ensures
        l1 == l2,
{
    assert forall|t: Seq<char>| has_key(l1, t) <==> has_key(l2, t) by {
        assert(has_key(l1, t) <==> tagged_paths(nodes, t).len() > 0);
        assert(has_key(l2, t) <==> tagged_paths(nodes, t).len() > 0);
    }
    lemma_same_keys_equal(l1, l2);
}

/// A tag asked for with a leading `#` finds what it finds without.
pub proof fn law_tag_hash_prefix(t: Seq<char>)
    requires
        t.len() == 0 || t[0] != '#',
    ensures
        strip_hash(seq!['#'] + t) == strip_hash(t),
{
    assert((seq!['#'] + t).skip(1) =~= t);
}

// ---------------------------------------------------------------------
// Headings
// ---------------------------------------------------------------------

/// The empty heading path finds the node itself.
pub proof fn law_find_empty_path(t: Tree)
    ensures
        find_in(t, Seq::empty()) == Some(t),
{
}

/// The outline of a document starts with its root: level 0 and its name.
pub proof fn law_outline_starts_with_root(name: Seq<char>, markdown: Seq<char>)
    ensures
        outline_tree(document_tree(name, markdown)).len() > 0,
        outline_tree(document_tree(name, markdown))[0] == (0u8, name),
{
}

// ---------------------------------------------------------------------
// Search results and extraction plans
// ---------------------------------------------------------------------

/// The display of search results counts no more nodes than matches.
pub proof fn law_distinct_nodes_bounded(hs: Seq<(Seq<char>, int, Seq<char>)>)
    ensures
        hit_paths(hs).to_set().len() <= hs.len(),
{
    hit_paths(hs).lemma_cardinality_of_set();
}

/// How many operations of a plan write a node: all but the skips.
pub open spec fn writing_ops(ops: Seq<ExtractionOp>) -> nat
    decreases ops.len(),
{
    if ops.len() == 0 {
        0
    } else {
        writing_ops(ops.drop_last()) + if ops.last() is Skip {
            0nat
        } else {
            1nat
        }
    }
}

/// An extraction writes once for each operation that is not a skip.
pub proof fn law_extraction_count(ops: Seq<ExtractionOp>)
    ensures
        plan_writes(ops).len() == writing_ops(ops),
    decreases ops.len(),
{
    if ops.len() > 0 {
        law_extraction_count(ops.drop_last());
    }
}

// ---------------------------------------------------------------------
// Relevant nodes
// ---------------------------------------------------------------------

proof fn lemma_read_pairs_ascending(linked: Seq<NodeContent>)
    requires
        forall|i: int, j: int| 0 <= i < j < linked.len() ==> seq_lt(#[trigger] linked[i].path@, #[trigger] linked[j].path@),
    ensures
        strictly_ascending(pair_paths(read_pairs(linked))),
        forall|x: Seq<char>| #[trigger] pair_paths(read_pairs(linked)).contains(x) ==> exists|k: int| 0 <= k < linked.len() && linked[k].path@ == x,
    decreases linked.len(),
{
    if linked.len() > 0 {
        let t = linked.drop_last();
        assert forall|i: int, j: int| 0 <= i < j < t.len() implies seq_lt(#[trigger] t[i].path@, #[trigger] t[j].path@) by {
            assert(t[i] == linked[i] && t[j] == linked[j]);
        }
        lemma_read_pairs_ascending(t);
        let r = pair_paths(read_pairs(t));
        let e = linked.last();
        assert forall|x: Seq<char>| #[trigger] r.contains(x) implies seq_lt(x, e.path@) by {
            let k = choose|k: int| 0 <= k < t.len() && t[k].path@ == x;
            assert(linked[k] == t[k]);
        }
        match e.text() {
            Some(c) => {
                let u = pair_paths(read_pairs(linked));
                assert(u =~= r.push(e.path@));
                assert forall|i: int, j: int| 0 <= i < j < u.len() implies seq_lt(#[trigger] u[i], #[trigger] u[j]) by {
                    if j == u.len() - 1 {
                        assert(r.contains(u[i]));
                    } else {
                        assert(seq_lt(r[i], r[j]));
                    }
                }
                assert forall|x: Seq<char>| #[trigger] u.contains(x) implies exists|k: int| 0 <= k < linked.len() && linked[k].path@ == x by {
                    let q = choose|q: int| 0 <= q < u.len() && u[q] == x;
                    if q < r.len() {
                        assert(r.contains(x));
                        let k = choose|k: int| 0 <= k < t.len() && t[k].path@ == x;
                        assert(linked[k] == t[k]);
                    } else {
                        assert(linked[linked.len() - 1].path@ == x);
                    }
                }
            },
            None => {
                assert forall|x: Seq<char>| #[trigger] r.contains(x) implies exists|k: int| 0 <= k < linked.len() && linked[k].path@ == x by {
                    let k = choose|k: int| 0 <= k < t.len() && t[k].path@ == x;
                    assert(linked[k] == t[k]);
                }
            },
        }
    }
}

proof fn lemma_relevant_distinct(linked: Seq<NodeContent>, globals: Seq<NodeContent>)
    requires
        pair_paths(read_pairs(linked)).no_duplicates(),
    ensures
        pair_paths(relevant_from(linked, globals)).no_duplicates(),
    decreases globals.len(),
{
    if globals.len() > 0 {
        lemma_relevant_distinct(linked, globals.drop_last());
        let r = relevant_from(linked, globals.drop_last());
        let g = globals.last();
        if !pair_paths(r).contains(g.path@) && g.text() is Some {
            let u = pair_paths(relevant_from(linked, globals));
            assert(u =~= pair_paths(r).push(g.path@));
            assert forall|i: int, j: int| 0 <= i < u.len() && 0 <= j < u.len() && i != j implies u[i] != u[j] by {
                if i == u.len() - 1 && j < pair_paths(r).len() {
                    assert(pair_paths(r)[j] == u[j]);
                } else if j == u.len() - 1 && i < pair_paths(r).len() {
                    assert(pair_paths(r)[i] == u[i]);
                }
            }
        }
    }
}

/// The relevant nodes of a session name each node once: the linked nodes,
/// then the global nodes not linked.
pub proof fn law_relevant_distinct(session: Seq<char>, linked: Seq<NodeContent>, globals: Seq<NodeContent>)
    requires
        reads_links_of(session, linked),
    ensures
        pair_paths(relevant_from(linked, globals)).no_duplicates(),
{
    law_links_ascending(session);
    assert forall|i: int, j: int| 0 <= i < j < linked.len() implies seq_lt(#[trigger] linked[i].path@, #[trigger] linked[j].path@) by {
        assert(seq_lt(links_of(session)[i], links_of(session)[j]));
    }
    lemma_read_pairs_ascending(linked);
    let p = pair_paths(read_pairs(linked));
    assert forall|i: int, j: int| 0 <= i < p.len() && 0 <= j < p.len() && i != j implies p[i] != p[j] by {
        if i < j {
            assert(seq_lt(p[i], p[j]));
            lemma_lt_irreflexive(p[i]);
        } else {
            assert(seq_lt(p[j], p[i]));
            lemma_lt_irreflexive(p[j]);
        }
    }
    lemma_relevant_distinct(linked, globals);
}

proof fn lemma_first_named_bounds(cs: Seq<Tree>, name: Seq<char>, i: int)
    requires
        0 <= i,
    ensures
        first_named(cs, name, i) matches Some(k) ==> i <= k < cs.len() && cs[k].name == name,
    decreases cs.len() - i,
{
    if 0 <= i < cs.len() && cs[i].name != name {
        lemma_first_named_bounds(cs, name, i + 1);
    }
}

/// The child a heading path steps to first: the first child named by its
/// first segment.
pub open spec fn step_child(t: Tree, a: Seq<char>) -> Option<Tree> {
    match first_named(t.children, a, 0) {
        Some(i) => Some(t.children[i]),
        None => None,
    }
}

/// `find` walks a heading path one segment at a time: a single segment `a`
/// finds the first child named `a`, and `a/rest` continues from that child
/// with `rest`; when no child is named `a` nothing is found (later children
/// of the same name are not tried).
pub proof fn law_find_step(t: Tree, a: Seq<char>, rest: Seq<char>)
    requires
        !a.contains('/'),
    ensures
        a.len() > 0 ==> find_in(t, a) == step_child(t, a),
        find_in(t, a + seq!['/'] + rest) == match step_child(t, a) {
            Some(c) => find_in(c, rest),
            None => None,
        },
{
    lemma_first_named_bounds(t.children, a, 0);
    if a.len() > 0 {
        assert forall|k: int| 0 <= k < a.len() implies a[k] != '/' by {
            if a[k] == '/' {
                assert(a.contains('/'));
            }
        }
        lemma_find_char_from_first(a, '/', 0, a.len() as int);
        assert(a.take(a.len() as int) =~= a);
        if let Some(i) = first_named(t.children, a, 0) {
            assert(find_in(t.children[i], Seq::empty()) == Some(t.children[i]));
        }
    }
    let h = a + seq!['/'] + rest;
    assert forall|k: int| 0 <= k < a.len() implies h[k] != '/' by {
        assert(h[k] == a[k]);
        if a[k] == '/' {
            assert(a.contains('/'));
        }
    }
    lemma_find_char_from_first(h, '/', 0, a.len() as int);
    assert(h.take(a.len() as int) =~= a);
    assert(h.skip(a.len() as int + 1) =~= rest);
}

/// The outline lists a tree in pre-order: its own heading, then the
/// outline of each child in turn.
pub proof fn law_outline_preorder(t: Tree)
    ensures
        outline_tree(t) == seq![(t.level, t.name)] + outline_forest(t.children, t.children.len() as int),
        outline_forest(t.children, 0) == Seq::<(u8, Seq<char>)>::empty(),
        forall|n: int|
            1 <= n <= t.children.len() ==> #[trigger] outline_forest(t.children, n) == outline_forest(t.children, n - 1)
                + outline_tree(t.children[n - 1]),
{
}

/// A tag index is determined by what it lists under each tag: two indexes
/// (tags ascending) that agree on every tag hold the same entries, in the
/// same order. So `format_tag_index` of an index is fixed by its `nodes_of`.
pub proof fn law_index_entries_determined(
    es1: Seq<(Seq<char>, Seq<Seq<char>>)>,
    es2: Seq<(Seq<char>, Seq<Seq<char>>)>,
)
    requires
        keys_ascending(es1),
        keys_ascending(es2),
        forall|t: Seq<char>| #[trigger] lookup(es1, t, 0) == lookup(es2, t, 0),
    ensures
        es1 == es2,
{
    assert forall|t: Seq<char>| has_key(es1, t) <==> has_key(es2, t) by {
        lemma_lookup_ascending(es1, t);
        lemma_lookup_ascending(es2, t);
        assert(lookup(es1, t, 0) == lookup(es2, t, 0));
    }
    assert forall|a: int, b: int|
        0 <= a < es1.len() && 0 <= b < es2.len() && #[trigger] es1[a].0 == #[trigger] es2[b].0 implies es1[a].1 == es2[b].1 by {
        lemma_lookup_ascending(es1, es1[a].0);
        lemma_lookup_ascending(es2, es1[a].0);
        assert(lookup(es1, es1[a].0, 0) == lookup(es2, es1[a].0, 0));
    }
    lemma_same_keys_equal(es1, es2);
}

/// Updating the index writes what generating the index of the whole vault
/// gives for the same clock reading: any text that `index_document(all,
/// all, stamp)` (the index `generate_index` stamps with the clock) can be,
/// built on a tag listing of the vault, is the text `update_index_at(all,
/// stamp)` writes.
pub proof fn law_update_writes_generated(all: Seq<NodeContent>, stamp: Seq<char>, generated: Seq<char>)
    requires
        exists|l: Seq<(Seq<char>, nat)>| tag_listing(all, l) && generated == index_text(all, all, stamp, l),
    ensures
        generated == index_for(all, all, stamp),
{
    let l = choose|l: Seq<(Seq<char>, nat)>| tag_listing(all, l) && generated == index_text(all, all, stamp, l);
    lemma_index_for(all, all, stamp, l);
}

// ---------------------------------------------------------------------
// Search patterns
// ---------------------------------------------------------------------

/// A search that ignores case uses the pattern of the case-sensitive search
/// of the same query with `(?i)` in front, for literal and regex queries
/// alike; the case-sensitive pattern is the query itself for a regex search
/// and the escaped query for a literal one.
pub proof fn law_search_pattern(query: Seq<char>, regex: bool)
    ensures
        search_pattern(query, false, regex) == seq!['(', '?', 'i', ')'] + search_pattern(query, true, regex),
        search_pattern(query, true, true) == query,
        search_pattern(query, true, false) == escaped(query),
{
    reveal_strlit("(?i)");
    assert("(?i)"@ =~= seq!['(', '?', 'i', ')']);
}

// ---------------------------------------------------------------------
// Backlinks, on the characters
// ---------------------------------------------------------------------

proof fn lemma_sources_exact(all: Seq<NodeContent>, target: Seq<char>, p: Seq<char>)
    ensures
        backlink_sources(all, target).contains(p) <==> exists|i: int|
            0 <= i < all.len() && #[trigger] all[i].path@ == p && links_to(all[i], target),
    decreases all.len(),
{
    if all.len() > 0 {
        let d = all.drop_last();
        lemma_sources_exact(d, target, p);
        let r = backlink_sources(d, target);
        if backlink_sources(all, target).contains(p) {
            if r.contains(p) {
                let i = choose|i: int| 0 <= i < d.len() && #[trigger] d[i].path@ == p && links_to(d[i], target);
                assert(all[i] == d[i]);
            } else {
                let q = choose|q: int| 0 <= q < backlink_sources(all, target).len() && backlink_sources(all, target)[q] == p;
                assert(links_to(all.last(), target));
                if q < r.len() {
                    assert(r.push(all.last().path@)[q] == r[q]);
                    assert(r.contains(p));
                }
                assert(all[all.len() - 1].path@ == p);
            }
        }
        if exists|i: int| 0 <= i < all.len() && #[trigger] all[i].path@ == p && links_to(all[i], target) {
            let i = choose|i: int| 0 <= i < all.len() && #[trigger] all[i].path@ == p && links_to(all[i], target);
            if i < d.len() {
                assert(d[i] == all[i]);
                assert(r.contains(p));
                let q = choose|q: int| 0 <= q < r.len() && r[q] == p;
                if links_to(all.last(), target) {
                    assert(r.push(all.last().path@)[q] == p);
                }
            } else {
                assert(r.push(all.last().path@)[r.len() as int] == p);
            }
        }
    }
}

/// The backlinks of `target` are exactly the paths of the other nodes whose
/// text holds the complete characters `[[`, `target`, `]]`.
pub proof fn law_backlinks_exact(all: Seq<NodeContent>, target: Seq<char>, p: Seq<char>)
    ensures
        sort_by_insertion(backlink_sources(all, target), text_before()).contains(p) <==> (p != target && exists|i: int|
            0 <= i < all.len() && #[trigger] all[i].path@ == p && (all[i].text() matches Some(c) && exists|k: int|
                0 <= k && k + target.len() + 4 <= c.len() && #[trigger] c.subrange(k, k + target.len() + 4)
                    == seq!['[', '['] + target + seq![']', ']'])),
{
    reveal_strlit("[[");
    reveal_strlit("]]");
    let w = seq!['[', '['] + target + seq![']', ']'];
    assert(link_text(target) =~= w);
    lemma_sort_contains(backlink_sources(all, target), text_before(), p);
    lemma_sources_exact(all, target, p);
    if exists|i: int| 0 <= i < all.len() && #[trigger] all[i].path@ == p && links_to(all[i], target) {
        let i = choose|i: int| 0 <= i < all.len() && #[trigger] all[i].path@ == p && links_to(all[i], target);
        let c = all[i].text()->0;
        let k = choose|k: int| occurs_at(c, link_text(target), k);
        assert(c.subrange(k, k + target.len() + 4) == w);
    }
    if p != target && exists|i: int|
        0 <= i < all.len() && #[trigger] all[i].path@ == p && (all[i].text() matches Some(c) && exists|k: int|
            0 <= k && k + target.len() + 4 <= c.len() && #[trigger] c.subrange(k, k + target.len() + 4) == w) {
        let i = choose|i: int|
            0 <= i < all.len() && #[trigger] all[i].path@ == p && (all[i].text() matches Some(c) && exists|k: int|
                0 <= k && k + target.len() + 4 <= c.len() && #[trigger] c.subrange(k, k + target.len() + 4) == w);
        let c = all[i].text()->0;
        let k = choose|k: int| 0 <= k && k + target.len() + 4 <= c.len() && #[trigger] c.subrange(k, k + target.len() + 4) == w;
        assert(occurs_at(c, link_text(target), k));
        assert(contains_sub(c, link_text(target)));
        assert(links_to(all[i], target));
    }
}

// ---------------------------------------------------------------------
// Directories
// ---------------------------------------------------------------------

proof fn lemma_last_slash(p: Seq<char>)
    ensures
        -1 <= last_slash(p) < p.len(),
        last_slash(p) >= 0 ==> p[last_slash(p)] == '/',
        forall|k: int| last_slash(p) < k < p.len() ==> p[k] != '/',
    decreases p.len(),
{
    if p.len() > 0 && p.last() != '/' {
        lemma_last_slash(p.drop_last());
        assert forall|k: int| last_slash(p) < k < p.len() implies p[k] != '/' by {
            if k < p.len() - 1 {
                assert(p[k] == p.drop_last()[k]);
            }
        }
        if last_slash(p) >= 0 {
            assert(p[last_slash(p)] == p.drop_last()[last_slash(p)]);
        }
    }
}

/// The directory of a node path is everything before its last `/`: the
/// path is its directory, a `/` and a name without `/`. A path without `/`
/// is at the root, whose directory is empty.
pub proof fn law_dir_before_last_slash(p: Seq<char>)
    ensures
        p.contains('/') ==> exists|name: Seq<char>| !name.contains('/') && p == dir_of(p) + seq!['/'] + name,
        !p.contains('/') ==> dir_of(p) == Seq::<char>::empty(),
{
    lemma_last_slash(p);
    let j = last_slash(p);
    if p.contains('/') {
        let q = choose|q: int| 0 <= q < p.len() && p[q] == '/';
        assert(j >= 0);
        let name = p.skip(j + 1);
        assert(!name.contains('/')) by {
            if name.contains('/') {
                let m = choose|m: int| 0 <= m < name.len() && name[m] == '/';
                assert(p[j + 1 + m] == '/');
            }
        }
        assert(p =~= dir_of(p) + seq!['/'] + name);
    } else {
        if j >= 0 {
            assert(p.contains('/'));
        }
    }
}

// ---------------------------------------------------------------------
// Total size
// ---------------------------------------------------------------------

proof fn lemma_total_concat(a: Seq<SizeView>, b: Seq<SizeView>)
    ensures
        total_bytes_of(a + b) == total_bytes_of(a) + total_bytes_of(b),
    decreases b.len(),
{
    if b.len() == 0 {
        assert(a + b =~= a);
    } else {
        lemma_total_concat(a, b.drop_last());
        assert((a + b).drop_last() =~= a + b.drop_last());
    }
}

proof fn lemma_total_remove(t: Seq<SizeView>, j: int)
    requires
        0 <= j < t.len(),
    ensures
        total_bytes_of(t) == total_bytes_of(t.remove(j)) + t[j].bytes,
{
    lemma_total_concat(t.take(j), t.skip(j));
    lemma_total_concat(t.take(j), t.skip(j + 1));
    lemma_total_concat(seq![t[j]], t.skip(j + 1));
    assert(t =~= t.take(j) + t.skip(j));
    assert(t.skip(j) =~= seq![t[j]] + t.skip(j + 1));
    assert(t.remove(j) =~= t.take(j) + t.skip(j + 1));
    assert(total_bytes_of(seq![t[j]]) == total_bytes_of(seq![t[j]].drop_last()) + t[j].bytes);
    assert(seq![t[j]].drop_last() =~= Seq::<SizeView>::empty());
}

proof fn lemma_total_permutation(s: Seq<SizeView>, t: Seq<SizeView>)
    requires
        s.to_multiset() == t.to_multiset(),
    ensures
        total_bytes_of(s) == total_bytes_of(t),
    decreases s.len(),
{
    broadcast use vstd::seq_lib::group_to_multiset_ensures;

    if s.len() == 0 {
        assert(t.to_multiset().len() == 0);
        assert(t.len() == 0);
    } else {
        let x = s.last();
        assert(s.to_multiset().count(x) > 0) by {
            assert(s.contains(x)) by {
                assert(s[s.len() - 1] == x);
            }
        }
        assert(t.contains(x));
        let j = choose|j: int| 0 <= j < t.len() && t[j] == x;
        assert(s =~= s.drop_last().push(x));
        assert(s.drop_last().to_multiset() == s.to_multiset().remove(x));
        assert(t.remove(j).to_multiset() == t.to_multiset().remove(x));
        lemma_total_permutation(s.drop_last(), t.remove(j));
        lemma_total_remove(t, j);
    }
}

/// The UTF-8 length of what reading a node gave; 0 for one that could not be read.
pub open spec fn text_bytes(e: NodeContent) -> nat {
    match e.text() {
        Some(c) => vstd::utf8::encode_utf8(c).len(),
        None => 0,
    }
}

proof fn lemma_readable_total(nodes: Seq<NodeContent>)
    requires
        forall|i: int| 0 <= i < nodes.len() ==> #[trigger] text_bytes(nodes[i]) <= usize::MAX,
    ensures
        total_bytes_of(readable_sizes(nodes)) == nodes.fold_left(0nat, |acc: nat, e: NodeContent| acc + text_bytes(e)),
    decreases nodes.len(),
{
    if nodes.len() > 0 {
        let d = nodes.drop_last();
        assert forall|i: int| 0 <= i < d.len() implies #[trigger] text_bytes(d[i]) <= usize::MAX by {
            assert(d[i] == nodes[i]);
        }
        lemma_readable_total(d);
        assert(text_bytes(nodes[nodes.len() - 1]) <= usize::MAX);
        let r = readable_sizes(d);
        match nodes.last().text() {
            Some(c) => {
                let x = size_of(nodes.last().path@, c);
                assert(r.push(x).drop_last() =~= r);
                assert(x.bytes == text_bytes(nodes.last()));
            },
            None => {},
        }
    }
}

/// The total size of a vault is the sum, over the nodes that could be
/// read, of the UTF-8 length of their text, whatever the order the sizes
/// are listed in: the total of a listing of sizes grows by each size added,
/// and is the same for any arrangement of the same sizes.
pub proof fn law_total_bytes(st: VaultStats, nodes: Seq<NodeContent>, s: Seq<SizeView>, t: Seq<SizeView>, x: SizeView)
    requires
        stats_match(st, nodes),
        forall|i: int| 0 <= i < nodes.len() ==> #[trigger] text_bytes(nodes[i]) <= usize::MAX,
    ensures
        st.total_bytes == nodes.fold_left(0nat, |acc: nat, e: NodeContent| acc + text_bytes(e)),
        total_bytes_of(Seq::<SizeView>::empty()) == 0,
        total_bytes_of(s.push(x)) == total_bytes_of(s) + x.bytes,
        s.to_multiset() == t.to_multiset() ==> total_bytes_of(s) == total_bytes_of(t),
{
    assert(s.push(x).drop_last() =~= s);
    if s.to_multiset() == t.to_multiset() {
        lemma_total_permutation(s, t);
    }
    lemma_sort_multiset(readable_sizes(nodes), larger_first());
    lemma_total_permutation(sizes_by_bytes(nodes), readable_sizes(nodes));
    lemma_readable_total(nodes);
}

// ---------------------------------------------------------------------
// Parsing keeps every line that is not a heading
// ---------------------------------------------------------------------

/// Whether the lines `ls` leave a fenced code block open: each line that
/// opens with ``` or ~~~ (after leading whitespace) opens or closes one.
pub open spec fn fence_open(ls: Seq<Seq<char>>) -> bool
    decreases ls.len(),
{
    if ls.len() == 0 {
        false
    } else {
        fence_open(ls.drop_last()) != is_fence(trim_start(ls.last()))
    }
}

/// Line `k` of `ls` is a heading: outside a code block, not a fence, and
/// shaped as a markdown heading.
pub open spec fn is_heading_line(ls: Seq<Seq<char>>, k: int) -> bool {
    &&& 0 <= k < ls.len()
    &&& !fence_open(ls.take(k))
    &&& !is_fence(trim_start(ls[k]))
    &&& heading_of(ls[k]) is Some
}

/// The number of heading lines among the first `n` lines.
pub open spec fn headings_before(ls: Seq<Seq<char>>, n: int) -> nat
    decreases n,
{
    if n <= 0 {
        0
    } else {
        headings_before(ls, n - 1) + (if is_heading_line(ls, n - 1) { 1nat } else { 0nat })
    }
}

/// The first heading line at or after `i`, or the number of lines if none.
pub open spec fn next_heading(ls: Seq<Seq<char>>, i: int) -> int
    decreases ls.len() - i,
{
    if i < 0 || i >= ls.len() {
        ls.len() as int
    } else if is_heading_line(ls, i) {
        i
    } else {
        next_heading(ls, i + 1)
    }
}

/// The number of empty lines at the start of `ls`.
pub open spec fn leading_blank(ls: Seq<Seq<char>>) -> nat
    decreases ls.len(),
{
    if ls.len() > 0 && ls[0].len() == 0 {
        1 + leading_blank(ls.drop_first())
    } else {
        0
    }
}

proof fn lemma_leading_blank(ls: Seq<Seq<char>>)
    ensures
        leading_blank(ls) <= ls.len(),
        leading_blank(ls) < ls.len() ==> ls[leading_blank(ls) as int].len() > 0,
    decreases ls.len(),
{
    if ls.len() > 0 && ls[0].len() == 0 {
        lemma_leading_blank(ls.drop_first());
    }
}

proof fn lemma_leading_blank_push(ls: Seq<Seq<char>>, l: Seq<char>)
    ensures
        leading_blank(ls.push(l)) == (if leading_blank(ls) == ls.len() {
            if l.len() == 0 {
                ls.len() + 1int
            } else {
                ls.len() as int
            }
        } else {
            leading_blank(ls) as int
        }),
    decreases ls.len(),
{
    lemma_leading_blank(ls);
    if ls.len() > 0 {
        assert(ls.push(l).drop_first() =~= ls.drop_first().push(l));
        assert(ls.push(l)[0] == ls[0]);
        if ls[0].len() == 0 {
            lemma_leading_blank_push(ls.drop_first(), l);
            assert(leading_blank(ls) == 1 + leading_blank(ls.drop_first()));
            assert(leading_blank(ls.push(l)) == 1 + leading_blank(ls.drop_first().push(l)));
        }
    } else {
        assert(ls.push(l)[0] == l);
        assert(ls.push(l).drop_first() =~= Seq::<Seq<char>>::empty());
        assert(leading_blank(Seq::<Seq<char>>::empty()) == 0);
        assert(leading_blank(ls) == 0);
    }
}

proof fn lemma_join_len(x: Seq<Seq<char>>)
    requires
        x.len() > 0,
    ensures
        join_lines(x).len() >= x[0].len(),
    decreases x.len(),
{
    if x.len() > 1 {
        lemma_join_len(x.drop_last());
        assert(x.drop_last()[0] == x[0]);
    }
}

proof fn lemma_heading_line_push(ls: Seq<Seq<char>>, l: Seq<char>, k: int)
    requires
        0 <= k < ls.len(),
    ensures
        is_heading_line(ls.push(l), k) == is_heading_line(ls, k),
{
    assert(ls.push(l).take(k) =~= ls.take(k));
    assert(ls.push(l)[k] == ls[k]);
}

proof fn lemma_headings_before_push(ls: Seq<Seq<char>>, l: Seq<char>, m: int)
    requires
        0 <= m <= ls.len(),
    ensures
        headings_before(ls.push(l), m) == headings_before(ls, m),
    decreases m,
{
    if m > 0 {
        lemma_headings_before_push(ls, l, m - 1);
        lemma_heading_line_push(ls, l, m - 1);
    }
}

proof fn lemma_headings_before_mono(ls: Seq<Seq<char>>, a: int, b: int)
    requires
        0 <= a <= b,
    ensures
        headings_before(ls, a) <= headings_before(ls, b),
    decreases b,
{
    if a < b {
        lemma_headings_before_mono(ls, a, b - 1);
    }
}

proof fn lemma_next_heading(ls: Seq<Seq<char>>, i: int)
    requires
        0 <= i <= ls.len(),
    ensures
        i <= next_heading(ls, i) <= ls.len(),
        next_heading(ls, i) == ls.len() <==> headings_before(ls, ls.len() as int) == headings_before(ls, i),
    decreases ls.len() - i,
{
    if i < ls.len() {
        lemma_next_heading(ls, i + 1);
        assert(headings_before(ls, i + 1) == headings_before(ls, i) + (if is_heading_line(ls, i) { 1nat } else { 0nat }));
        lemma_headings_before_mono(ls, i + 1, ls.len() as int);
    }
}

proof fn lemma_next_heading_push(ls: Seq<Seq<char>>, l: Seq<char>, i: int)
    requires
        0 <= i <= ls.len(),
    ensures
        next_heading(ls.push(l), i) == (if next_heading(ls, i) < ls.len() {
            next_heading(ls, i)
        } else if is_heading_line(ls.push(l), ls.len() as int) {
            ls.len() as int
        } else {
            ls.len() + 1int
        }),
    decreases ls.len() - i,
{
    let n = ls.len() as int;
    if i == n {
        if !is_heading_line(ls.push(l), n) {
            assert(next_heading(ls.push(l), n + 1) == n + 1);
        }
    } else {
        lemma_heading_line_push(ls, l, i);
        lemma_next_heading_push(ls, l, i + 1);
    }
}

/// What the parse state after `ls` holds, line by line: the code-block
/// flag, one section per heading line with the lines up to the next
/// heading, and the lines before the first heading (leading empty lines
/// dropped) as the root text.
pub open spec fn parse_agrees(ls: Seq<Seq<char>>) -> bool {
    let st = parse_lines(ls);
    let pre = ls.take(next_heading(ls, 0));
    &&& st.in_code == fence_open(ls)
    &&& st.sections.len() == headings_before(ls, ls.len() as int)
    &&& forall|k: int| #[trigger] is_heading_line(ls, k) ==> {
        let sec = st.sections[headings_before(ls, k) as int];
        &&& heading_of(ls[k]) == Some((sec.level, sec.name))
        &&& sec.lines == ls.subrange(k + 1, next_heading(ls, k + 1))
    }
    &&& st.root == join_lines(pre.skip(leading_blank(pre) as int))
}

proof fn lemma_parse_agrees_step(d: Seq<Seq<char>>, l: Seq<char>)
    requires
        parse_agrees(d),
    ensures
        parse_agrees(d.push(l)),
{
    let ls = d.push(l);
    let n = d.len() as int;
    let st = parse_lines(d);
    assert(ls.drop_last() =~= d);
    assert(ls.last() == l);
    let st2 = parse_lines(ls);
    assert(st2 == parse_step(st, l));
    assert(ls.take(n) =~= d);
    assert(ls[n] == l);
    let h = is_heading_line(ls, n);
    lemma_headings_before_push(d, l, n);
    lemma_next_heading(d, 0);
    lemma_next_heading_push(d, l, 0);
    assert(headings_before(d, 0) == 0);
    assert(headings_before(ls, n + 1) == headings_before(d, n) + (if h { 1nat } else { 0nat }));
    // the code-block flag
    assert(fence_open(ls) == (fence_open(d) != is_fence(trim_start(l))));
    // heading lines of d keep their sections
    assert forall|k: int| #[trigger] is_heading_line(ls, k) implies {
        let sec = st2.sections[headings_before(ls, k) as int];
        &&& heading_of(ls[k]) == Some((sec.level, sec.name))
        &&& sec.lines == ls.subrange(k + 1, next_heading(ls, k + 1))
    } by {
        if k < n {
            lemma_heading_line_push(d, l, k);
            lemma_headings_before_push(d, l, k);
            lemma_next_heading_push(d, l, k + 1);
            lemma_next_heading(d, k + 1);
            lemma_headings_before_mono(d, k + 1, n);
            assert(headings_before(d, k + 1) == headings_before(d, k) + 1);
            let idx = headings_before(d, k) as int;
            let sec = st.sections[idx];
            assert(ls[k] == d[k]);
            if next_heading(d, k + 1) < n {
                assert(idx < st.sections.len() - 1);
                assert(ls.subrange(k + 1, next_heading(d, k + 1)) =~= d.subrange(k + 1, next_heading(d, k + 1)));
            } else {
                assert(idx == st.sections.len() - 1);
                if h {
                    assert(ls.subrange(k + 1, n) =~= d.subrange(k + 1, n));
                } else {
                    assert(ls.subrange(k + 1, n + 1) =~= d.subrange(k + 1, n).push(l));
                }
            }
        } else {
            assert(k == n);
            assert(next_heading(ls, n + 1) == n + 1);
            assert(ls.subrange(n + 1, n + 1) =~= Seq::<Seq<char>>::empty());
        }
    }
    // the root text
    let pre = d.take(next_heading(d, 0));
    lemma_leading_blank(pre);
    if next_heading(d, 0) < n {
        assert(ls.take(next_heading(ls, 0)) =~= pre);
    } else {
        assert(pre =~= d);
        if h {
            assert(ls.take(next_heading(ls, 0)) =~= d);
        } else {
            assert(ls.take(next_heading(ls, 0)) =~= d.push(l));
            lemma_leading_blank_push(d, l);
            let b = leading_blank(d) as int;
            if b < n {
                lemma_join_len(d.skip(b));
                assert(d.skip(b)[0] == d[b]);
                assert(d.push(l).skip(b) =~= d.skip(b).push(l));
                assert(d.push(l).skip(b).drop_last() =~= d.skip(b));
            } else {
                assert(d.skip(b) =~= Seq::<Seq<char>>::empty());
                if l.len() == 0 {
                    assert(d.push(l).skip(n + 1) =~= Seq::<Seq<char>>::empty());
                    assert(l =~= Seq::<char>::empty());
                } else {
                    assert(d.push(l).skip(n) =~= seq![l]);
                }
            }
        }
    }
}

proof fn lemma_parse_agrees(ls: Seq<Seq<char>>)
    ensures
        parse_agrees(ls),
    decreases ls.len(),
{
    if ls.len() == 0 {
        assert(ls.take(0) =~= Seq::<Seq<char>>::empty());
        assert(Seq::<Seq<char>>::empty().skip(0) =~= Seq::<Seq<char>>::empty());
    } else {
        lemma_parse_agrees(ls.drop_last());
        lemma_parse_agrees_step(ls.drop_last(), ls.last());
        assert(ls.drop_last().push(ls.last()) =~= ls);
    }
}

/// Parsing keeps every line of the markdown that is not a heading: there
/// is one section per heading line (one outside a code block, not a fence,
/// shaped as a heading), in order, with that heading's level and text and
/// as content the lines that follow it up to the next heading line, fence
/// lines and code included; the lines before the first heading (leading
/// empty lines dropped) are the document's own content.
pub proof fn law_parse_keeps_lines(md: Seq<char>)
    ensures
        ({
            let ls = lines(md);
            let s = sections_in(md);
            let pre = ls.take(next_heading(ls, 0));
            &&& s.len() == headings_before(ls, ls.len() as int)
            &&& forall|k: int| #[trigger] is_heading_line(ls, k) ==> {
                let sec = s[headings_before(ls, k) as int];
                &&& heading_of(ls[k]) == Some((sec.level, sec.name))
                &&& sec.content == trim_newlines(join_lines(ls.subrange(k + 1, next_heading(ls, k + 1))))
            }
            &&& preamble_of(md) == trim_newlines(join_lines(pre.skip(leading_blank(pre) as int)))
        }),
{
    let ls = lines(md);
    lemma_parse_agrees(ls);
    assert forall|k: int| #[trigger] is_heading_line(ls, k) implies headings_before(ls, k) < headings_before(ls, ls.len() as int) by {
        lemma_headings_before_mono(ls, k + 1, ls.len() as int);
    }
}

// ---------------------------------------------------------------------
// Total tokens
// ---------------------------------------------------------------------

proof fn lemma_tokens_concat(a: Seq<SizeView>, b: Seq<SizeView>)
    ensures
        total_tokens_of(a + b) == total_tokens_of(a) + total_tokens_of(b),
    decreases b.len(),
{
    if b.len() == 0 {
        assert(a + b =~= a);
    } else {
        lemma_tokens_concat(a, b.drop_last());
        assert((a + b).drop_last() =~= a + b.drop_last());
    }
}

proof fn lemma_tokens_remove(t: Seq<SizeView>, j: int)
    requires
        0 <= j < t.len(),
    ensures
        total_tokens_of(t) == total_tokens_of(t.remove(j)) + t[j].tokens,
{
    lemma_tokens_concat(t.take(j), t.skip(j));
    lemma_tokens_concat(t.take(j), t.skip(j + 1));
    lemma_tokens_concat(seq![t[j]], t.skip(j + 1));
    assert(t =~= t.take(j) + t.skip(j));
    assert(t.skip(j) =~= seq![t[j]] + t.skip(j + 1));
    assert(t.remove(j) =~= t.take(j) + t.skip(j + 1));
    assert(total_tokens_of(seq![t[j]]) == total_tokens_of(seq![t[j]].drop_last()) + t[j].tokens);
    assert(seq![t[j]].drop_last() =~= Seq::<SizeView>::empty());
}

proof fn lemma_tokens_permutation(s: Seq<SizeView>, t: Seq<SizeView>)
    requires
        s.to_multiset() == t.to_multiset(),
    ensures
        total_tokens_of(s) == total_tokens_of(t),
    decreases s.len(),
{
    broadcast use vstd::seq_lib::group_to_multiset_ensures;

    if s.len() == 0 {
        assert(t.to_multiset().len() == 0);
        assert(t.len() == 0);
    } else {
        let x = s.last();
        assert(s.to_multiset().count(x) > 0) by {
            assert(s.contains(x)) by {
                assert(s[s.len() - 1] == x);
            }
        }
        assert(t.contains(x));
        let j = choose|j: int| 0 <= j < t.len() && t[j] == x;
        assert(s =~= s.drop_last().push(x));
        assert(s.drop_last().to_multiset() == s.to_multiset().remove(x));
        assert(t.remove(j).to_multiset() == t.to_multiset().remove(x));
        lemma_tokens_permutation(s.drop_last(), t.remove(j));
        lemma_tokens_remove(t, j);
    }
}

/// The estimated tokens of what reading a node gave (a quarter of its
/// characters); 0 for one that could not be read.
pub open spec fn text_tokens(e: NodeContent) -> nat {
    match e.text() {
        Some(c) => c.len() / 4,
        None => 0,
    }
}

proof fn lemma_readable_tokens(nodes: Seq<NodeContent>)
    ensures
        total_tokens_of(readable_sizes(nodes)) == nodes.fold_left(0nat, |acc: nat, e: NodeContent| acc + text_tokens(e)),
    decreases nodes.len(),
{
    if nodes.len() > 0 {
        let d = nodes.drop_last();
        lemma_readable_tokens(d);
        let r = readable_sizes(d);
        match nodes.last().text() {
            Some(c) => {
                let x = size_of(nodes.last().path@, c);
                assert(r.push(x).drop_last() =~= r);
            },
            None => {},
        }
    }
}

/// The estimated tokens of a vault are the sum, over the nodes that could
/// be read, of a quarter of their characters, whatever the order the sizes
/// are listed in.
pub proof fn law_total_tokens(st: VaultStats, nodes: Seq<NodeContent>, s: Seq<SizeView>, t: Seq<SizeView>, x: SizeView)
    requires
        stats_match(st, nodes),
    ensures
        st.total_tokens == nodes.fold_left(0nat, |acc: nat, e: NodeContent| acc + text_tokens(e)),
        total_tokens_of(Seq::<SizeView>::empty()) == 0,
        total_tokens_of(s.push(x)) == total_tokens_of(s) + x.tokens,
        s.to_multiset() == t.to_multiset() ==> total_tokens_of(s) == total_tokens_of(t),
{
    assert(s.push(x).drop_last() =~= s);
    if s.to_multiset() == t.to_multiset() {
        lemma_tokens_permutation(s, t);
    }
    lemma_sort_multiset(readable_sizes(nodes), larger_first());
    lemma_tokens_permutation(sizes_by_bytes(nodes), readable_sizes(nodes));
    lemma_readable_tokens(nodes);
}

// ---------------------------------------------------------------------
// Headings and section text
// ---------------------------------------------------------------------

/// A line is a heading exactly when it opens with one to six `#`, then a
/// whitespace character, then at least one more character; its level is
/// the number of `#` and its text is the rest, trimmed.
pub proof fn law_heading_shape(line: Seq<char>, lvl: int)
    ensures
        (heading_of(line) matches Some(h) && h.0 == lvl) <==> {
            &&& 1 <= lvl <= 6
            &&& lvl + 2 <= line.len()
            &&& forall|k: int| 0 <= k < lvl ==> #[trigger] line[k] == '#'
            &&& line[lvl] != '#'
            &&& is_ws(line[lvl])
        },
        heading_of(line) matches Some(h) ==> h.1 == trim(line.skip(h.0 as int)),
{
    lemma_hash_run(line, 0);
    let h = hash_run(line, 0);
    if 1 <= lvl <= 6 && lvl + 2 <= line.len() && (forall|k: int| 0 <= k < lvl ==> #[trigger] line[k] == '#')
        && line[lvl] != '#' && is_ws(line[lvl]) {
        if h < lvl {
            assert(line[h] == '#');
        }
        if h > lvl {
            assert(line[lvl] == '#');
        }
    }
    if heading_of(line) matches Some(hd) && hd.0 == lvl {
        assert(h == lvl);
        assert(line[lvl] != '#') by {
            if line[lvl] == '#' {
                assert(is_ws(line[lvl]));
            }
        }
    }
}

/// Lines are joined with one `\\n` between each two, nothing added at the
/// ends.
pub proof fn law_join_lines(x: Seq<Seq<char>>, a: Seq<char>, l: Seq<char>)
    ensures
        join_lines(Seq::<Seq<char>>::empty()) == Seq::<char>::empty(),
        join_lines(seq![a]) == a,
        x.len() > 0 ==> join_lines(x.push(l)) == join_lines(x) + seq!['\n'] + l,
{
    assert(seq![a][0] == a);
    if x.len() > 0 {
        assert(x.push(l).drop_last() =~= x);
    }
}

proof fn lemma_trailing_bound(s: Seq<char>)
    ensures
        trailing_newlines(s) <= s.len(),
    decreases s.len(),
{
    if s.len() > 0 && s.last() == '\n' {
        lemma_trailing_bound(s.drop_last());
    }
}

/// Trimming newlines removes the `\\n` at the end of a text and nothing
/// else: what is left is a prefix of the text that does not end in `\\n`,
/// and everything after it is `\\n`.
pub proof fn law_trim_newlines(s: Seq<char>)
    ensures
        s.take(trim_newlines(s).len() as int) == trim_newlines(s),
        trim_newlines(s).len() <= s.len(),
        trim_newlines(s).len() > 0 ==> trim_newlines(s).last() != '\n',
        forall|k: int| trim_newlines(s).len() <= k < s.len() ==> #[trigger] s[k] == '\n',
    decreases s.len(),
{
    if s.len() > 0 && s.last() == '\n' {
        law_trim_newlines(s.drop_last());
        let t = s.drop_last();
        lemma_trailing_bound(t);
        assert(trailing_newlines(s) == 1 + trailing_newlines(t));
        assert(trim_newlines(s) == trim_newlines(t)) by {
            assert(s.take(s.len() - trailing_newlines(s)) =~= t.take(t.len() - trailing_newlines(t)));
        }
        assert forall|k: int| trim_newlines(s).len() <= k < s.len() implies #[trigger] s[k] == '\n' by {
            if k < t.len() {
                assert(s[k] == t[k]);
            }
        }
        assert(s.take(trim_newlines(s).len() as int) =~= t.take(trim_newlines(t).len() as int));
    } else {
        assert(trailing_newlines(s) == 0);
        assert(trim_newlines(s) =~= s);
    }
}

} // verus!
