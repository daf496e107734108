//! Surveying the structure of the vault: links, orphans, hubs and sparse areas.
use vstd::prelude::*;

use crate::link::{links_of, parse_links};
use crate::node::NodeContent;
use crate::text::{
    contains_string, dec, dedup_keep_first, lemma_dedup_keep_first, lemma_insert_pos_found,
    push_usize, seq_lt, sort_by_insertion, str_lt, string_of, to_chars,
};

verus! {

/// Statistics about a vault.
#[derive(Debug, Clone)]
pub struct VaultStats {
    /// Total number of nodes.
    pub node_count: usize,
    /// Number of unique link targets referenced across all nodes.
    pub unique_link_targets: usize,
    /// Number of orphan nodes (no incoming or outgoing links).
    pub orphan_count: usize,
}

/// Information about a single node in the survey.
#[derive(Debug)]
pub struct NodeInfo {
    /// Node path.
    pub path: String,
    /// Number of outgoing [[links]] from this node.
    pub outgoing_links: usize,
    /// Number of backlinks pointing to this node.
    pub backlinks: usize,
    /// Whether this node is an orphan (no incoming or outgoing links).
    pub is_orphan: bool,
}

impl DeepView for NodeInfo {
    type V = (Seq<char>, nat, nat, bool);

    open spec fn deep_view(&self) -> (Seq<char>, nat, nat, bool) {
        (self.path@, self.outgoing_links as nat, self.backlinks as nat, self.is_orphan)
    }
}

impl Clone for NodeInfo {
    fn clone(&self) -> (res: Self)
        ensures
            res.deep_view() == self.deep_view(),
    {
        NodeInfo {
            path: self.path.clone(),
            outgoing_links: self.outgoing_links,
            backlinks: self.backlinks,
            is_orphan: self.is_orphan,
        }
    }
}

/// Complete survey result.
#[derive(Debug, Clone)]
pub struct Survey {
    /// Vault statistics.
    pub stats: VaultStats,
    /// Information about each node, sorted by path.
    pub nodes: Vec<NodeInfo>,
    /// List of orphan node paths.
    pub orphans: Vec<String>,
    /// Nodes with many backlinks (potential hubs), sorted by backlink count descending.
    pub dense_hubs: Vec<(String, usize)>,
    /// Directory prefixes with few nodes (potential sparse areas).
    pub sparse_areas: Vec<(String, usize)>,
}

/// The number of backlinks from which a node counts as a hub.
pub const HUB_THRESHOLD: usize = 5;

/// The number of nodes up to which a directory counts as sparse.
pub const SPARSE_THRESHOLD: usize = 2;

// ---------------------------------------------------------------------
// The model
// ---------------------------------------------------------------------

/// The text of a node, the empty text if it could not be read.
pub open spec fn content_or_empty(e: NodeContent) -> Seq<char> {
    match e.text() {
        Some(c) => c,
        None => Seq::empty(),
    }
}

/// The links going out of a node.
pub open spec fn out_links(e: NodeContent) -> Seq<Seq<char>> {
    links_of(content_or_empty(e))
}

/// How many nodes of the listing link to `p`.
pub open spec fn linking_count(nodes: Seq<NodeContent>, p: Seq<char>) -> nat
    decreases nodes.len(),
{
    if nodes.len() == 0 {
        0
    } else {
        linking_count(nodes.drop_last(), p) + if out_links(nodes.last()).contains(p) {
            1nat
        } else {
            0nat
        }
    }
}

/// What the survey says of the node `e` of the listing `nodes`.
pub open spec fn info_of(nodes: Seq<NodeContent>, e: NodeContent) -> (Seq<char>, nat, nat, bool) {
    let o = out_links(e).len();
    let b = linking_count(nodes, e.path@);
    (e.path@, o, b, o == 0 && b == 0)
}

/// The node information, in listing order.
pub open spec fn infos(nodes: Seq<NodeContent>) -> Seq<(Seq<char>, nat, nat, bool)> {
    Seq::new(nodes.len(), |i: int| info_of(nodes, nodes[i]))
}

/// Node information ordered by path.
pub open spec fn info_before() -> spec_fn((Seq<char>, nat, nat, bool), (Seq<char>, nat, nat, bool)) -> bool {
    |a: (Seq<char>, nat, nat, bool), b: (Seq<char>, nat, nat, bool)| seq_lt(a.0, b.0)
}

/// The paths of the orphans among `is`, in order.
pub open spec fn orphans_in(is: Seq<(Seq<char>, nat, nat, bool)>) -> Seq<Seq<char>>
    decreases is.len(),
{
    if is.len() == 0 {
        Seq::empty()
    } else {
        let r = orphans_in(is.drop_last());
        if is.last().3 {
            r.push(is.last().0)
        } else {
            r
        }
    }
}

/// The nodes among `is` with at least `HUB_THRESHOLD` backlinks, with their count, in order.
pub open spec fn heavy_in(is: Seq<(Seq<char>, nat, nat, bool)>) -> Seq<(Seq<char>, nat)>
    decreases is.len(),
{
    if is.len() == 0 {
        Seq::empty()
    } else {
        let r = heavy_in(is.drop_last());
        if is.last().2 >= HUB_THRESHOLD {
            r.push((is.last().0, is.last().2))
        } else {
            r
        }
    }
}

/// Pairs ordered by count, larger first.
pub open spec fn more_first() -> spec_fn((Seq<char>, nat), (Seq<char>, nat)) -> bool {
    |a: (Seq<char>, nat), b: (Seq<char>, nat)| a.1 > b.1
}

/// Pairs ordered by name.
pub open spec fn name_before() -> spec_fn((Seq<char>, nat), (Seq<char>, nat)) -> bool {
    |a: (Seq<char>, nat), b: (Seq<char>, nat)| seq_lt(a.0, b.0)
}

/// The position of the last `/` of `p`, or -1.
pub open spec fn last_slash(p: Seq<char>) -> int
    decreases p.len(),
{
    if p.len() == 0 {
        -1
    } else if p.last() == '/' {
        p.len() - 1
    } else {
        last_slash(p.drop_last())
    }
}

/// The directory of a node path: all before its last `/`, empty at the root.
pub open spec fn dir_of(p: Seq<char>) -> Seq<char> {
    if last_slash(p) < 0 {
        Seq::empty()
    } else {
        p.take(last_slash(p))
    }
}

/// The directories of the nodes, in listing order.
pub open spec fn dirs_of(nodes: Seq<NodeContent>) -> Seq<Seq<char>> {
    Seq::new(nodes.len(), |i: int| dir_of(nodes[i].path@))
}

/// How often `d` occurs in `s`.
pub open spec fn occurrences(s: Seq<Seq<char>>, d: Seq<char>) -> nat
    decreases s.len(),
{
    if s.len() == 0 {
        0
    } else {
        occurrences(s.drop_last(), d) + if s.last() == d {
            1nat
        } else {
            0nat
        }
    }
}

/// The keys of `keys` that occur at most `SPARSE_THRESHOLD` times in `ds`, with their count.
pub open spec fn small_groups(keys: Seq<Seq<char>>, ds: Seq<Seq<char>>) -> Seq<(Seq<char>, nat)>
    decreases keys.len(),
{
    if keys.len() == 0 {
        Seq::empty()
    } else {
        let r = small_groups(keys.drop_last(), ds);
        if occurrences(ds, keys.last()) <= SPARSE_THRESHOLD {
            r.push((keys.last(), occurrences(ds, keys.last())))
        } else {
            r
        }
    }
}

/// The sparse areas: the directories holding at most `SPARSE_THRESHOLD`
/// nodes, with their count, by name.
pub open spec fn sparse_of(nodes: Seq<NodeContent>) -> Seq<(Seq<char>, nat)> {
    sort_by_insertion(small_groups(dedup_keep_first(dirs_of(nodes)), dirs_of(nodes)), name_before())
}

/// All link targets of the listing, node after node.
pub open spec fn all_targets(nodes: Seq<NodeContent>) -> Seq<Seq<char>>
    decreases nodes.len(),
{
    if nodes.len() == 0 {
        Seq::empty()
    } else {
        all_targets(nodes.drop_last()) + out_links(nodes.last())
    }
}

/// Pairs with counts seen as natural numbers.
pub open spec fn pairs_view(v: Seq<(Seq<char>, usize)>) -> Seq<(Seq<char>, nat)> {
    Seq::new(v.len(), |i: int| (v[i].0, v[i].1 as nat))
}

// ---------------------------------------------------------------------
// Steps
// ---------------------------------------------------------------------

/// The outgoing links of each node, in listing order.
fn outgoing_of(nodes: &Vec<NodeContent>) -> (res: Vec<Vec<String>>)
    ensures
        res@.len() == nodes@.len(),
        forall|i: int| 0 <= i < nodes@.len() ==> #[trigger] res@[i].deep_view() == out_links(nodes@[i]),
{
    let mut res: Vec<Vec<String>> = Vec::new();
    let mut i: usize = 0;
    while i < nodes.len()
        invariant
            i <= nodes@.len(),
            res@.len() == i,
            forall|k: int| 0 <= k < i ==> #[trigger] res@[k].deep_view() == out_links(nodes@[k]),
        decreases nodes@.len() - i,
    {
        let links = match &nodes[i].content {
            Some(c) => parse_links(c.as_str()),
            None => {
                proof {
                    reveal_strlit("");
                }
                parse_links("")
            },
        };
        res.push(links);
        i += 1;
    }
    res
}

/// How many nodes link to `p`, from their outgoing links.
fn count_linking(nodes: &Vec<NodeContent>, outs: &Vec<Vec<String>>, p: &String) -> (res: usize)
    requires
        outs@.len() == nodes@.len(),
        forall|i: int| 0 <= i < nodes@.len() ==> #[trigger] outs@[i].deep_view() == out_links(nodes@[i]),
    ensures
        res == linking_count(nodes@, p@),
{
    let mut count: usize = 0;
    let mut j: usize = 0;
    assert(nodes@.take(0) =~= Seq::<NodeContent>::empty());
    while j < outs.len()
        invariant
            j <= nodes@.len(),
            outs@.len() == nodes@.len(),
            forall|i: int| 0 <= i < nodes@.len() ==> #[trigger] outs@[i].deep_view() == out_links(nodes@[i]),
            count == linking_count(nodes@.take(j as int), p@),
            count <= j,
        decreases nodes@.len() - j,
    {
        assert(nodes@.take(j + 1).drop_last() =~= nodes@.take(j as int));
        assert(nodes@.take(j + 1).last() == nodes@[j as int]);
        assert(outs@[j as int].deep_view() == out_links(nodes@[j as int]));
        if contains_string(&outs[j], p) {
            count += 1;
        }
        j += 1;
    }
    assert(nodes@.take(nodes@.len() as int) =~= nodes@);
    count
}

/// The node information in listing order.
fn node_infos(nodes: &Vec<NodeContent>, outs: &Vec<Vec<String>>) -> (res: Vec<NodeInfo>)
    requires
        outs@.len() == nodes@.len(),
        forall|i: int| 0 <= i < nodes@.len() ==> #[trigger] outs@[i].deep_view() == out_links(nodes@[i]),
    ensures
        res.deep_view() == infos(nodes@),
{
    let mut res: Vec<NodeInfo> = Vec::new();
    let mut i: usize = 0;
    while i < nodes.len()
        invariant
            i <= nodes@.len(),
            outs@.len() == nodes@.len(),
            forall|k: int| 0 <= k < nodes@.len() ==> #[trigger] outs@[k].deep_view() == out_links(nodes@[k]),
            res.deep_view() =~= infos(nodes@).take(i as int),
        decreases nodes@.len() - i,
    {
        let path = nodes[i].path.clone();
        let outgoing = outs[i].len();
        assert(outs@[i as int].deep_view().len() == outs@[i as int]@.len());
        assert(outgoing == out_links(nodes@[i as int]).len());
        let backlinks = count_linking(nodes, outs, &path);
        let ghost old_dv = res.deep_view();
        res.push(
            NodeInfo { path, outgoing_links: outgoing, backlinks, is_orphan: outgoing == 0 && backlinks == 0 },
        );
        assert(res.deep_view() =~= old_dv.push(info_of(nodes@, nodes@[i as int])));
        i += 1;
    }
    res
}

fn info_lt(a: &NodeInfo, b: &NodeInfo) -> (res: bool)
    ensures
        res == info_before()(a.deep_view(), b.deep_view()),
{
    str_lt(a.path.as_str(), b.path.as_str())
}

/// Stable sort of node information by path.
fn sort_infos(v: Vec<NodeInfo>) -> (res: Vec<NodeInfo>)
    ensures
        res.deep_view() == sort_by_insertion(v.deep_view(), info_before()),
{
    let mut res: Vec<NodeInfo> = Vec::new();
    let mut i: usize = 0;
    let n = v.len();
    assert(v.deep_view().take(0) =~= Seq::<(Seq<char>, nat, nat, bool)>::empty());
    while i < n
        invariant
            n == v@.len(),
            i <= n,
            res.deep_view() == sort_by_insertion(v.deep_view().take(i as int), info_before()),
        decreases n - i,
    {
        let x = v[i].clone();
        let mut p: usize = 0;
        let mut go = true;
        while go && p < res.len()
            invariant
                p <= res@.len(),
                i < n,
                n == v@.len(),
                x.deep_view() == v.deep_view()[i as int],
                forall|k: int| 0 <= k < p ==> !info_before()(x.deep_view(), #[trigger] res.deep_view()[k]),
                !go ==> p < res@.len() && info_before()(x.deep_view(), res.deep_view()[p as int]),
            decreases (res@.len() - p) * 2 + (if go { 1int } else { 0int }),
        {
            assert(res.deep_view()[p as int] == res@[p as int].deep_view());
            if info_lt(&x, &res[p]) {
                go = false;
            } else {
                p += 1;
            }
        }
        proof {
            lemma_insert_pos_found(res.deep_view(), x.deep_view(), info_before(), 0, p as int);
            assert(v.deep_view().take(i + 1).drop_last() =~= v.deep_view().take(i as int));
        }
        let ghost old_dv = res.deep_view();
        res.insert(p, x);
        proof {
            assert(res.deep_view() =~= old_dv.insert(p as int, v.deep_view()[i as int]));
        }
        i += 1;
    }
    assert(v.deep_view().take(n as int) =~= v.deep_view());
    res
}

/// The paths of the orphans, in order.
fn orphan_list(is: &Vec<NodeInfo>) -> (res: Vec<String>)
    ensures
        res.deep_view() == orphans_in(is.deep_view()),
{
    let mut res: Vec<String> = Vec::new();
    let mut i: usize = 0;
    assert(is.deep_view().take(0) =~= Seq::<(Seq<char>, nat, nat, bool)>::empty());
    while i < is.len()
        invariant
            i <= is@.len(),
            res.deep_view() == orphans_in(is.deep_view().take(i as int)),
        decreases is@.len() - i,
    {
        assert(is.deep_view().take(i + 1).drop_last() =~= is.deep_view().take(i as int));
        assert(is.deep_view().take(i + 1).last() == is@[i as int].deep_view());
        if is[i].is_orphan {
            let ghost old_dv = res.deep_view();
            res.push(is[i].path.clone());
            assert(res.deep_view() =~= old_dv.push(is@[i as int].path@));
        }
        i += 1;
    }
    assert(is.deep_view().take(is@.len() as int) =~= is.deep_view());
    res
}

/// Stable insertion of pairs into order, by the comparison `by_count`
/// (larger count first) or else by name.
pub(crate) fn sort_pairs(v: Vec<(String, usize)>, by_count: bool) -> (res: Vec<(String, usize)>)
    ensures
        pairs_view(res.deep_view()) == sort_by_insertion(
            pairs_view(v.deep_view()),
            if by_count {
                more_first()
            } else {
                name_before()
            },
        ),
{
    let ghost before = if by_count {
        more_first()
    } else {
        name_before()
    };
    let ghost vv = pairs_view(v.deep_view());
    let mut res: Vec<(String, usize)> = Vec::new();
    let mut i: usize = 0;
    let n = v.len();
    assert(vv.take(0) =~= Seq::<(Seq<char>, nat)>::empty());
    assert(pairs_view(res.deep_view()) =~= Seq::<(Seq<char>, nat)>::empty());
    while i < n
        invariant
            n == v@.len(),
            i <= n,
            vv == pairs_view(v.deep_view()),
            before == (if by_count {
                more_first()
            } else {
                name_before()
            }),
            pairs_view(res.deep_view()) == sort_by_insertion(vv.take(i as int), before),
        decreases n - i,
    {
        let x = (v[i].0.clone(), v[i].1);
        let ghost xv = (x.0@, x.1 as nat);
        assert(xv == vv[i as int]);
        let mut p: usize = 0;
        let mut go = true;
        while go && p < res.len()
            invariant
                p <= res@.len(),
                i < n,
                n == v@.len(),
                xv == (x.0@, x.1 as nat),
                before == (if by_count {
                    more_first()
                } else {
                    name_before()
                }),
                forall|k: int| 0 <= k < p ==> !before(xv, #[trigger] pairs_view(res.deep_view())[k]),
                !go ==> p < res@.len() && before(xv, pairs_view(res.deep_view())[p as int]),
            decreases (res@.len() - p) * 2 + (if go { 1int } else { 0int }),
        {
            assert(pairs_view(res.deep_view())[p as int] == (res@[p as int].0@, res@[p as int].1 as nat));
            let lt = if by_count {
                x.1 > res[p].1
            } else {
                str_lt(x.0.as_str(), res[p].0.as_str())
            };
            if lt {
                go = false;
            } else {
                p += 1;
            }
        }
        proof {
            lemma_insert_pos_found(pairs_view(res.deep_view()), xv, before, 0, p as int);
            assert(vv.take(i + 1).drop_last() =~= vv.take(i as int));
        }
        let ghost old_pv = pairs_view(res.deep_view());
        res.insert(p, x);
        proof {
            assert(pairs_view(res.deep_view()) =~= old_pv.insert(p as int, xv));
        }
        i += 1;
    }
    assert(vv.take(n as int) =~= vv);
    res
}

/// The nodes with at least `HUB_THRESHOLD` backlinks, most referenced first.
fn dense_hubs_of(is: &Vec<NodeInfo>) -> (res: Vec<(String, usize)>)
    ensures
        pairs_view(res.deep_view()) == sort_by_insertion(heavy_in(is.deep_view()), more_first()),
{
    let mut heavy: Vec<(String, usize)> = Vec::new();
    let mut i: usize = 0;
    assert(is.deep_view().take(0) =~= Seq::<(Seq<char>, nat, nat, bool)>::empty());
    assert(pairs_view(heavy.deep_view()) =~= Seq::<(Seq<char>, nat)>::empty());
    while i < is.len()
        invariant
            i <= is@.len(),
            pairs_view(heavy.deep_view()) == heavy_in(is.deep_view().take(i as int)),
        decreases is@.len() - i,
    {
        assert(is.deep_view().take(i + 1).drop_last() =~= is.deep_view().take(i as int));
        assert(is.deep_view().take(i + 1).last() == is@[i as int].deep_view());
        if is[i].backlinks >= HUB_THRESHOLD {
            let ghost old_pv = pairs_view(heavy.deep_view());
            heavy.push((is[i].path.clone(), is[i].backlinks));
            assert(pairs_view(heavy.deep_view()) =~= old_pv.push(
                (is@[i as int].path@, is@[i as int].backlinks as nat),
            ));
        }
        i += 1;
    }
    assert(is.deep_view().take(is@.len() as int) =~= is.deep_view());
    sort_pairs(heavy, true)
}

/// The directory of a node path.
fn dir_string(p: &String) -> (res: String)
    ensures
        res@ == dir_of(p@),
{
    let cs = to_chars(p.as_str());
    let mut found: Option<usize> = None;
    let mut k: usize = 0;
    assert(cs@.take(0) =~= Seq::<char>::empty());
    while k < cs.len()
        invariant
            cs@ == p@,
            k <= cs@.len(),
            match found {
                Some(x) => x < k && last_slash(cs@.take(k as int)) == x,
                None => last_slash(cs@.take(k as int)) == -1,
            },
        decreases cs@.len() - k,
    {
        assert(cs@.take(k + 1).drop_last() =~= cs@.take(k as int));
        if cs[k] == '/' {
            found = Some(k);
        }
        k += 1;
    }
    assert(cs@.take(cs@.len() as int) =~= cs@);
    match found {
        Some(x) => {
            let d = string_of(&cs, 0, x);
            assert(d@ =~= p@.take(x as int));
            d
        },
        None => String::new(),
    }
}

/// The sparse areas of the listing.
fn sparse_areas_of(nodes: &Vec<NodeContent>) -> (res: Vec<(String, usize)>)
    ensures
        pairs_view(res.deep_view()) == sparse_of(nodes@),
{
    let ghost ds = dirs_of(nodes@);
    let mut dirs: Vec<String> = Vec::new();
    let mut i: usize = 0;
    while i < nodes.len()
        invariant
            i <= nodes@.len(),
            ds == dirs_of(nodes@),
            dirs.deep_view() =~= ds.take(i as int),
        decreases nodes@.len() - i,
    {
        let d = dir_string(&nodes[i].path);
        let ghost old_dv = dirs.deep_view();
        dirs.push(d);
        assert(dirs.deep_view() =~= old_dv.push(ds[i as int]));
        i += 1;
    }
    assert(ds.take(nodes@.len() as int) =~= ds);
    // Distinct directories, in order of first appearance.
    let mut keys: Vec<String> = Vec::new();
    let mut j: usize = 0;
    assert(ds.take(0) =~= Seq::<Seq<char>>::empty());
    while j < dirs.len()
        invariant
            dirs.deep_view() == ds,
            j <= ds.len(),
            keys.deep_view() == dedup_keep_first(ds.take(j as int)),
        decreases ds.len() - j,
    {
        assert(ds.take(j + 1).drop_last() =~= ds.take(j as int));
        assert(ds.take(j + 1).last() == dirs@[j as int]@);
        if !contains_string(&keys, &dirs[j]) {
            let ghost old_dv = keys.deep_view();
            keys.push(dirs[j].clone());
            assert(keys.deep_view() =~= old_dv.push(dirs@[j as int]@));
        }
        j += 1;
    }
    assert(ds.take(ds.len() as int) =~= ds);
    let ghost ks = keys.deep_view();
    // Keys with few nodes, and their count.
    let mut small: Vec<(String, usize)> = Vec::new();
    let mut q: usize = 0;
    assert(ks.take(0) =~= Seq::<Seq<char>>::empty());
    assert(pairs_view(small.deep_view()) =~= Seq::<(Seq<char>, nat)>::empty());
    while q < keys.len()
        invariant
            keys.deep_view() == ks,
            dirs.deep_view() == ds,
            q <= ks.len(),
            pairs_view(small.deep_view()) == small_groups(ks.take(q as int), ds),
        decreases ks.len() - q,
    {
        let key = &keys[q];
        assert(ks[q as int] == key@);
        let mut count: usize = 0;
        let mut r: usize = 0;
        assert(ds.take(0) =~= Seq::<Seq<char>>::empty());
        while r < dirs.len()
            invariant
                dirs.deep_view() == ds,
                r <= ds.len(),
                count == occurrences(ds.take(r as int), key@),
                count <= r,
            decreases ds.len() - r,
        {
            assert(ds.take(r + 1).drop_last() =~= ds.take(r as int));
            assert(ds.take(r + 1).last() == dirs@[r as int]@);
            if dirs[r] == *key {
                count += 1;
            }
            r += 1;
        }
        assert(ds.take(ds.len() as int) =~= ds);
        assert(ks.take(q + 1).drop_last() =~= ks.take(q as int));
        if count <= SPARSE_THRESHOLD {
            let ghost old_pv = pairs_view(small.deep_view());
            small.push((key.clone(), count));
            assert(pairs_view(small.deep_view()) =~= old_pv.push((key@, count as nat)));
        }
        q += 1;
    }
    assert(ks.take(ks.len() as int) =~= ks);
    sort_pairs(small, false)
}

/// The number of distinct link targets of the listing.
fn distinct_targets(nodes: &Vec<NodeContent>, outs: &Vec<Vec<String>>) -> (res: usize)
    requires
        outs@.len() == nodes@.len(),
        forall|i: int| 0 <= i < nodes@.len() ==> #[trigger] outs@[i].deep_view() == out_links(nodes@[i]),
    ensures
        res == all_targets(nodes@).to_set().len(),
{
    let mut seen: Vec<String> = Vec::new();
    let mut i: usize = 0;
    assert(nodes@.take(0) =~= Seq::<NodeContent>::empty());
    while i < outs.len()
        invariant
            i <= nodes@.len(),
            outs@.len() == nodes@.len(),
            forall|k: int| 0 <= k < nodes@.len() ==> #[trigger] outs@[k].deep_view() == out_links(nodes@[k]),
            seen.deep_view() == dedup_keep_first(all_targets(nodes@.take(i as int))),
        decreases nodes@.len() - i,
    {
        assert(nodes@.take(i + 1).drop_last() =~= nodes@.take(i as int));
        assert(nodes@.take(i + 1).last() == nodes@[i as int]);
        let ghost before = all_targets(nodes@.take(i as int));
        let ghost ol = outs@[i as int].deep_view();
        assert(ol == out_links(nodes@[i as int]));
        let mut k: usize = 0;
        assert(before + ol.take(0) =~= before);
        while k < outs[i].len()
            invariant
                i < nodes@.len(),
                outs@.len() == nodes@.len(),
                ol == outs@[i as int].deep_view(),
                k <= ol.len(),
                seen.deep_view() == dedup_keep_first(before + ol.take(k as int)),
            decreases ol.len() - k,
        {
            let t = &outs[i][k];
            assert(ol[k as int] == t@);
            assert((before + ol.take(k + 1)).drop_last() =~= before + ol.take(k as int));
            assert((before + ol.take(k + 1)).last() == t@);
            if !contains_string(&seen, t) {
                let ghost old_dv = seen.deep_view();
                seen.push(t.clone());
                assert(seen.deep_view() =~= old_dv.push(t@));
            }
            k += 1;
        }
        assert(ol.take(ol.len() as int) =~= ol);
        i += 1;
    }
    assert(nodes@.take(nodes@.len() as int) =~= nodes@);
    proof {
        lemma_dedup_keep_first(all_targets(nodes@));
        dedup_keep_first(all_targets(nodes@)).unique_seq_to_set();
    }
    seen.len()
}

/// Survey the listing and produce a snapshot report.
///
/// `nodes` is the listing of the nodes under the surveyed scope, with what
/// reading each gave; a node that could not be read counts as empty. The
/// survey counts nodes and distinct link targets, gives each node its
/// outgoing links and backlinks (links from nodes of the listing), lists the
/// orphans (neither), the dense hubs (at least `HUB_THRESHOLD` backlinks,
/// most first) and the sparse areas (directories with at most
/// `SPARSE_THRESHOLD` nodes, by name).
pub fn survey(nodes: &Vec<NodeContent>) -> (res: Survey)
    ensures
        res.nodes.deep_view() == sort_by_insertion(infos(nodes@), info_before()),
        res.orphans.deep_view() == orphans_in(infos(nodes@)),
        pairs_view(res.dense_hubs.deep_view()) == sort_by_insertion(
            heavy_in(sort_by_insertion(infos(nodes@), info_before())),
            more_first(),
        ),
        pairs_view(res.sparse_areas.deep_view()) == sparse_of(nodes@),
        res.stats.node_count == nodes@.len(),
        res.stats.unique_link_targets == all_targets(nodes@).to_set().len(),
        res.stats.orphan_count == res.orphans@.len(),
{
    let outs = outgoing_of(nodes);
    let listed = node_infos(nodes, &outs);
    let orphans = orphan_list(&listed);
    let unique = distinct_targets(nodes, &outs);
    let sorted = sort_infos(listed);
    let dense_hubs = dense_hubs_of(&sorted);
    let sparse_areas = sparse_areas_of(nodes);
    let orphan_count = orphans.len();
    Survey {
        stats: VaultStats { node_count: nodes.len(), unique_link_targets: unique, orphan_count },
        nodes: sorted,
        orphans,
        dense_hubs,
        sparse_areas,
    }
}

// ---------------------------------------------------------------------
// Report
// ---------------------------------------------------------------------

/// The items joined with `sep` between neighbours.
pub open spec fn joined(items: Seq<Seq<char>>, sep: Seq<char>) -> Seq<char>
    decreases items.len(),
{
    if items.len() == 0 {
        Seq::empty()
    } else if items.len() == 1 {
        items[0]
    } else {
        joined(items.drop_last(), sep) + sep + items.last()
    }
}

/// A line of the node index.
pub open spec fn index_line(n: (Seq<char>, nat, nat, bool)) -> Seq<char> {
    "- "@ + n.0 + " ("@ + dec(n.1) + " outgoing, "@ + dec(n.2) + " backlinks)"@ + (if n.3 {
        " ← ORPHAN"@
    } else {
        Seq::empty()
    }) + (if n.2 >= HUB_THRESHOLD {
        " ← heavily referenced"@
    } else {
        Seq::empty()
    }) + "\n"@
}

pub open spec fn index_lines(ns: Seq<(Seq<char>, nat, nat, bool)>) -> Seq<char>
    decreases ns.len(),
{
    if ns.len() == 0 {
        Seq::empty()
    } else {
        index_lines(ns.drop_last()) + index_line(ns.last())
    }
}

/// A hub as the report names it.
pub open spec fn hub_item(h: (Seq<char>, usize)) -> Seq<char> {
    h.0 + " ("@ + dec(h.1 as nat) + " backlinks)"@
}

pub open spec fn hub_items(hs: Seq<(Seq<char>, usize)>) -> Seq<Seq<char>> {
    Seq::new(hs.len(), |i: int| hub_item(hs[i]))
}

/// The sparse areas as the report names them: those below the root.
pub open spec fn area_items(areas: Seq<(Seq<char>, usize)>) -> Seq<Seq<char>>
    decreases areas.len(),
{
    if areas.len() == 0 {
        Seq::empty()
    } else {
        let r = area_items(areas.drop_last());
        let a = areas.last();
        if a.0.len() > 0 {
            r.push(a.0 + " ("@ + dec(a.1 as nat) + " nodes)"@)
        } else {
            r
        }
    }
}

/// The "Potential Issues" lines.
pub open spec fn issues_text(
    orphans: Seq<Seq<char>>,
    hubs: Seq<(Seq<char>, usize)>,
    areas: Seq<(Seq<char>, usize)>,
) -> Seq<char> {
    (if orphans.len() > 0 {
        "- Orphan nodes: "@ + joined(orphans, ", "@) + "\n"@
    } else {
        Seq::empty()
    }) + (if hubs.len() > 0 {
        "- Dense hubs: "@ + joined(hub_items(hubs), ", "@) + " — consider if it should be split\n"@
    } else {
        Seq::empty()
    }) + (if area_items(areas).len() > 0 {
        "- Sparse areas: "@ + joined(area_items(areas), ", "@) + "\n"@
    } else {
        Seq::empty()
    }) + (if orphans.len() == 0 && hubs.len() == 0 && area_items(areas).len() == 0 {
        "- No issues detected\n"@
    } else {
        Seq::empty()
    })
}

/// The markdown report of a survey.
pub open spec fn report_text(s: Survey) -> Seq<char> {
    "# Vault Survey\n\n"@ + "## Stats\n"@ + "- "@ + dec(s.stats.node_count as nat) + " nodes\n"@ + "- "@
        + dec(s.stats.unique_link_targets as nat) + " unique [[link]] targets\n"@ + "- "@ + dec(
        s.stats.orphan_count as nat,
    ) + " orphan nodes (no incoming or outgoing links)\n"@ + "\n"@ + "## Node Index\n"@
        + index_lines(s.nodes.deep_view()) + "\n"@ + "## Potential Issues\n"@ + issues_text(
        s.orphans.deep_view(),
        s.dense_hubs.deep_view(),
        s.sparse_areas.deep_view(),
    )
}

/// Appends the items joined with `", "`.
fn push_joined(out: &mut String, items: &Vec<String>)
    ensures
        final(out)@ == old(out)@ + joined(items.deep_view(), ", "@),
{
    let ghost start = out@;
    let mut i: usize = 0;
    assert(items.deep_view().take(0) =~= Seq::<Seq<char>>::empty());
    while i < items.len()
        invariant
            i <= items@.len(),
            out@ == start + joined(items.deep_view().take(i as int), ", "@),
        decreases items@.len() - i,
    {
        assert(items.deep_view().take(i + 1).drop_last() =~= items.deep_view().take(i as int));
        assert(items.deep_view()[i as int] == items@[i as int]@);
        if i > 0 {
            out.append(", ");
        } else {
            assert(items.deep_view().take(1) =~= seq![items@[0]@]);
        }
        out.append(items[i].as_str());
        i += 1;
    }
    assert(items.deep_view().take(items@.len() as int) =~= items.deep_view());
}

fn push_index_line(out: &mut String, n: &NodeInfo)
    ensures
        final(out)@ == old(out)@ + index_line(n.deep_view()),
{
    let ghost start = out@;
    out.append("- ");
    out.append(n.path.as_str());
    out.append(" (");
    push_usize(out, n.outgoing_links);
    out.append(" outgoing, ");
    push_usize(out, n.backlinks);
    out.append(" backlinks)");
    let ghost mid = out@;
    if n.is_orphan {
        out.append(" ← ORPHAN");
    }
    let ghost mid2 = out@;
    if n.backlinks >= HUB_THRESHOLD {
        out.append(" ← heavily referenced");
    }
    let ghost mid3 = out@;
    out.append("\n");
    assert(mid2 =~= mid + (if n.is_orphan { " ← ORPHAN"@ } else { Seq::empty() }));
    assert(mid3 =~= mid2 + (if n.backlinks >= HUB_THRESHOLD { " ← heavily referenced"@ } else { Seq::empty() }));
    assert(out@ =~= start + index_line(n.deep_view()));
}

#[verifier::spinoff_prover]
#[verifier::rlimit(40)]
fn push_issues(out: &mut String, survey: &Survey)
    ensures
        final(out)@ == old(out)@ + issues_text(
            survey.orphans.deep_view(),
            survey.dense_hubs.deep_view(),
            survey.sparse_areas.deep_view(),
        ),
{
    let ghost start = out@;
    if survey.orphans.len() > 0 {
        out.append("- Orphan nodes: ");
        push_joined(out, &survey.orphans);
        out.append("\n");
    }
    let ghost after_orphans = out@;
    if survey.dense_hubs.len() > 0 {
        let ghost hs = survey.dense_hubs.deep_view();
        let mut items: Vec<String> = Vec::new();
        let mut k: usize = 0;
        while k < survey.dense_hubs.len()
            invariant
                hs == survey.dense_hubs.deep_view(),
                k <= hs.len(),
                items.deep_view() =~= hub_items(hs).take(k as int),
            decreases hs.len() - k,
        {
            let h = &survey.dense_hubs[k];
            assert(hs[k as int] == (h.0@, h.1));
            let mut item = h.0.clone();
            item.append(" (");
            push_usize(&mut item, h.1);
            item.append(" backlinks)");
            let ghost old_dv = items.deep_view();
            items.push(item);
            assert(items.deep_view() =~= old_dv.push(hub_item(hs[k as int])));
            k += 1;
        }
        assert(hub_items(hs).take(hs.len() as int) =~= hub_items(hs));
        out.append("- Dense hubs: ");
        push_joined(out, &items);
        out.append(" — consider if it should be split\n");
    }
    let ghost after_hubs = out@;
    let ghost av = survey.sparse_areas.deep_view();
    let mut areas: Vec<String> = Vec::new();
    let mut q: usize = 0;
    assert(av.take(0) =~= Seq::<(Seq<char>, usize)>::empty());
    while q < survey.sparse_areas.len()
        invariant
            av == survey.sparse_areas.deep_view(),
            q <= av.len(),
            areas.deep_view() == area_items(av.take(q as int)),
        decreases av.len() - q,
    {
        let a = &survey.sparse_areas[q];
        assert(av[q as int] == (a.0@, a.1));
        assert(av.take(q + 1).drop_last() =~= av.take(q as int));
        if !a.0.as_str().is_empty() {
            let mut item = a.0.clone();
            item.append(" (");
            push_usize(&mut item, a.1);
            item.append(" nodes)");
            let ghost old_dv = areas.deep_view();
            areas.push(item);
            assert(areas.deep_view() =~= old_dv.push(a.0@ + " ("@ + dec(a.1 as nat) + " nodes)"@));
        }
        q += 1;
    }
    assert(av.take(av.len() as int) =~= av);
    if areas.len() > 0 {
        out.append("- Sparse areas: ");
        push_joined(out, &areas);
        out.append("\n");
    }
    let ghost after_areas = out@;
    if survey.orphans.len() == 0 && survey.dense_hubs.len() == 0 && areas.len() == 0 {
        out.append("- No issues detected\n");
    }
    let ghost o = survey.orphans.deep_view();
    let ghost hv = survey.dense_hubs.deep_view();
    assert(after_orphans =~= start + (if o.len() > 0 {
        "- Orphan nodes: "@ + joined(o, ", "@) + "\n"@
    } else {
        Seq::empty()
    }));
    assert(after_hubs =~= after_orphans + (if hv.len() > 0 {
        "- Dense hubs: "@ + joined(hub_items(hv), ", "@) + " — consider if it should be split\n"@
    } else {
        Seq::empty()
    }));
    assert(after_areas =~= after_hubs + (if area_items(av).len() > 0 {
        "- Sparse areas: "@ + joined(area_items(av), ", "@) + "\n"@
    } else {
        Seq::empty()
    }));
    assert(out@ =~= after_areas + (if o.len() == 0 && hv.len() == 0 && area_items(av).len() == 0 {
        "- No issues detected\n"@
    } else {
        Seq::empty()
    }));
    assert(out@ =~= start + issues_text(o, hv, av));
}

/// Format a survey as a markdown report.
pub fn format_report(survey: &Survey) -> (res: String)
    ensures
        res@ == report_text(*survey),
{
    let mut output = String::from_str("# Vault Survey\n\n");
    output.append("## Stats\n");
    output.append("- ");
    push_usize(&mut output, survey.stats.node_count);
    output.append(" nodes\n");
    output.append("- ");
    push_usize(&mut output, survey.stats.unique_link_targets);
    output.append(" unique [[link]] targets\n");
    output.append("- ");
    push_usize(&mut output, survey.stats.orphan_count);
    output.append(" orphan nodes (no incoming or outgoing links)\n");
    output.append("\n");
    output.append("## Node Index\n");
    let ghost head = output@;
    let ghost ns = survey.nodes.deep_view();
    let mut i: usize = 0;
    assert(ns.take(0) =~= Seq::<(Seq<char>, nat, nat, bool)>::empty());
    while i < survey.nodes.len()
        invariant
            ns == survey.nodes.deep_view(),
            i <= ns.len(),
            output@ == head + index_lines(ns.take(i as int)),
        decreases ns.len() - i,
    {
        let n = &survey.nodes[i];
        assert(ns[i as int] == n.deep_view());
        assert(ns.take(i + 1).drop_last() =~= ns.take(i as int));
        push_index_line(&mut output, n);
        i += 1;
    }
    assert(ns.take(ns.len() as int) =~= ns);
    output.append("\n");
    output.append("## Potential Issues\n");
    let ghost mid = output@;
    push_issues(&mut output, survey);
    assert(output@ =~= report_text(*survey));
    output
}

} // verus!
