//! Node sizes, size categories and vault statistics.
use vstd::prelude::*;

use crate::node::NodeContent;
use crate::text::{
    dec, digit_char, lines, push_char, push_decimal, push_usize, sort_by_insertion, split_lines,
    to_chars,
};

verus! {

/// Node size information.
#[derive(Debug)]
pub struct NodeSize {
    /// Node path.
    pub path: String,
    /// Content size in bytes.
    pub bytes: usize,
    /// Number of lines.
    pub lines: usize,
    /// Estimated tokens (rough: chars / 4).
    pub tokens: usize,
}

/// What a `NodeSize` says.
pub struct SizeView {
    pub path: Seq<char>,
    pub bytes: nat,
    pub lines: nat,
    pub tokens: nat,
}

impl View for NodeSize {
    type V = SizeView;

    open spec fn view(&self) -> SizeView {
        SizeView {
            path: self.path@,
            bytes: self.bytes as nat,
            lines: self.lines as nat,
            tokens: self.tokens as nat,
        }
    }
}

/// The size of a node with path `path` and text `content`: UTF-8 bytes,
/// lines as `str::lines` counts them, and a quarter of the characters as tokens.
pub open spec fn size_of(path: Seq<char>, content: Seq<char>) -> SizeView {
    SizeView {
        path: path,
        bytes: (vstd::utf8::encode_utf8(content).len() as usize) as nat,
        lines: lines(content).len(),
        tokens: content.len() / 4,
    }
}

/// Get size information for a node from its content.
pub fn node_size(node_path: &str, content: &str) -> (res: NodeSize)
    ensures
        res@ == size_of(node_path@, content@),
{
    let chars = to_chars(content);
    let ls = split_lines(&chars);
    proof {
        assert(ls.deep_view().len() == ls@.len());
    }
    NodeSize {
        path: String::from_str(node_path),
        bytes: content.len(),
        lines: ls.len(),
        tokens: chars.len() / 4,
    }
}

/// The sizes of the nodes of `nodes` that could be read, in listing order.
pub open spec fn readable_sizes(nodes: Seq<NodeContent>) -> Seq<SizeView>
    decreases nodes.len(),
{
    if nodes.len() == 0 {
        Seq::empty()
    } else {
        let r = readable_sizes(nodes.drop_last());
        match nodes.last().text() {
            Some(c) => r.push(size_of(nodes.last().path@, c)),
            None => r,
        }
    }
}

/// Larger nodes come first.
pub open spec fn larger_first() -> spec_fn(SizeView, SizeView) -> bool {
    |a: SizeView, b: SizeView| a.bytes > b.bytes
}

/// The sizes of the readable nodes, largest first; nodes of equal size keep
/// their listing order.
pub open spec fn sizes_by_bytes(nodes: Seq<NodeContent>) -> Seq<SizeView> {
    sort_by_insertion(readable_sizes(nodes), larger_first())
}

pub open spec fn views_of(v: Seq<NodeSize>) -> Seq<SizeView> {
    Seq::new(v.len(), |i: int| v[i]@)
}

/// Get size information for all nodes of a listing, largest first.
pub fn all_sizes(nodes: &Vec<NodeContent>) -> (res: Vec<NodeSize>)
    ensures
        views_of(res@) == sizes_by_bytes(nodes@),
{
    let mut sizes: Vec<NodeSize> = Vec::new();
    let mut i: usize = 0;
    assert(nodes@.take(0) =~= Seq::<NodeContent>::empty());
    assert(views_of(sizes@) =~= sort_by_insertion(readable_sizes(Seq::<NodeContent>::empty()), larger_first()));
    while i < nodes.len()
        invariant
            i <= nodes@.len(),
            views_of(sizes@) == sort_by_insertion(readable_sizes(nodes@.take(i as int)), larger_first()),
        decreases nodes@.len() - i,
    {
        let e = &nodes[i];
        assert(nodes@.take(i + 1).drop_last() =~= nodes@.take(i as int));
        assert(nodes@.take(i + 1).last() == *e);
        match &e.content {
            Some(c) => {
                let size = node_size(e.path.as_str(), c.as_str());
                let mut p: usize = 0;
                while p < sizes.len() && sizes[p].bytes >= size.bytes
                    invariant
                        p <= sizes@.len(),
                        forall|k: int| 0 <= k < p ==> !larger_first()(size@, #[trigger] views_of(sizes@)[k]),
                    decreases sizes@.len() - p,
                {
                    p += 1;
                }
                proof {
                    crate::text::lemma_insert_pos_found(views_of(sizes@), size@, larger_first(), 0, p as int);
                    assert(readable_sizes(nodes@.take(i + 1)) =~= readable_sizes(nodes@.take(i as int)).push(size@));
                    assert(readable_sizes(nodes@.take(i + 1)).drop_last() =~= readable_sizes(nodes@.take(i as int)));
                }
                let ghost old_views = views_of(sizes@);
                let ghost sv = size@;
                sizes.insert(p, size);
                assert(views_of(sizes@) =~= old_views.insert(p as int, sv));
            },
            None => {
                assert(readable_sizes(nodes@.take(i + 1)) =~= readable_sizes(nodes@.take(i as int)));
            },
        }
        i += 1;
    }
    assert(nodes@.take(nodes@.len() as int) =~= nodes@);
    sizes
}

// ---------------------------------------------------------------------
// Formatting sizes
// ---------------------------------------------------------------------

pub open spec fn p2(k: nat) -> nat
    decreases k,
{
    if k == 0 {
        1
    } else {
        2 * p2((k - 1) as nat)
    }
}

/// How many low bits of `b` a double cannot hold: the smallest `s` (at most
/// eleven, enough below 2^64) with `b < 2^(53 + s)`.
pub open spec fn f64_shift(b: nat, s: nat) -> nat
    decreases 11 - s,
{
    if s >= 11 || b < p2(53 + s) {
        s
    } else {
        f64_shift(b, s + 1)
    }
}

/// `b` rounded to the nearest multiple of `2^s`, ties to the even multiple.
pub open spec fn round_to_multiple(b: nat, s: nat) -> nat {
    let d = p2(s);
    let m = b / d;
    let r = b % d;
    if 2 * r > d || (2 * r == d && m % 2 == 1) {
        (m + 1) * d
    } else {
        m * d
    }
}

/// The value of `b as f64`: the nearest double, ties to even.
pub open spec fn f64_of(b: nat) -> nat {
    round_to_multiple(b, f64_shift(b, 0))
}

/// `f / den` in tenths, rounded to the nearest, ties to even, as `{:.1}` rounds.
pub open spec fn tenths(f: nat, den: nat) -> nat {
    let t = f * 10;
    let q = t / den;
    let r = t % den;
    if 2 * r > den || (2 * r == den && q % 2 == 1) {
        q + 1
    } else {
        q
    }
}

/// A number of tenths written with one decimal.
pub open spec fn one_decimal(q: nat) -> Seq<char> {
    dec(q / 10) + seq!['.', digit_char(q % 10)]
}

/// Format size with appropriate unit: bytes below 1024, else KB or MB with one
/// decimal, as `{:.1}` prints the quotient of doubles.
pub open spec fn size_text(bytes: nat) -> Seq<char> {
    if bytes < 1024 {
        dec(bytes) + seq!['B']
    } else if bytes < 1024 * 1024 {
        one_decimal(tenths(bytes, 1024)) + seq!['K', 'B']
    } else {
        one_decimal(tenths(f64_of(bytes), 1024 * 1024)) + seq!['M', 'B']
    }
}

proof fn lemma_p2_values()
    ensures
        p2(0) == 1,
        p2(10) == 1024,
        p2(20) == 1024 * 1024,
        p2(53) == 0x20_0000_0000_0000,
        p2(64) == 0x1_0000_0000_0000_0000,
{
    reveal_with_fuel(p2, 65);
}

proof fn lemma_p2_step(k: nat)
    ensures
        p2(k + 1) == 2 * p2(k),
{
}

fn f64_value(b: u64) -> (res: u128)
    ensures
        res as nat == f64_of(b as nat),
        res <= 0x1_0000_0000_0000_0000,
{
    proof {
        lemma_p2_values();
    }
    let mut s: u64 = 0;
    let mut d: u128 = 1;
    let mut lim: u128 = 0x20_0000_0000_0000;
    while s < 11 && (b as u128) >= lim
        invariant
            s <= 11,
            d as nat == p2(s as nat),
            lim as nat == p2((53 + s) as nat),
            f64_shift(b as nat, 0) == f64_shift(b as nat, s as nat),
            (s == 0 && d == 1) || (s == 1 && d == 2) || (s == 2 && d == 4) || (s == 3 && d == 8)
                || (s == 4 && d == 16) || (s == 5 && d == 32) || (s == 6 && d == 64) || (s == 7
                && d == 128) || (s == 8 && d == 256) || (s == 9 && d == 512) || (s == 10 && d
                == 1024) || (s == 11 && d == 2048),
            lim == d * 0x20_0000_0000_0000,
        decreases 11 - s,
    {
        proof {
            lemma_p2_step(s as nat);
            lemma_p2_step((53 + s) as nat);
        }
        s += 1;
        d = d * 2;
        lim = lim * 2;
    }
    let m = (b as u128) / d;
    let r = (b as u128) % d;
    proof {
        assert(f64_shift(b as nat, s as nat) == s);
        assert((b as u128) < lim);
        assert(m < 0x20_0000_0000_0000) by (nonlinear_arith)
            requires
                m == (b as u128) / d,
                d > 0,
                (b as u128) < d * 0x20_0000_0000_0000,
        ;
        assert((m + 1) * d <= 0x20_0000_0000_0000 * d) by (nonlinear_arith)
            requires
                m < 0x20_0000_0000_0000,
                d > 0,
        ;
        assert(d <= 2048);
        assert(d * 0x20_0000_0000_0000 <= 0x1_0000_0000_0000_0000);
        assert(m * d <= (m + 1) * d) by (nonlinear_arith)
            requires
                d > 0,
        ;
    }
    if 2 * r > d || (2 * r == d && m % 2 == 1) {
        (m + 1) * d
    } else {
        m * d
    }
}

/// Appends `f / den` with one decimal, rounded as `{:.1}` rounds.
fn push_one_decimal(s: &mut String, f: u128, den: u128)
    requires
        den > 0,
        f <= 0x1_0000_0000_0000_0000,
        0x400 <= den <= 0x10_0000,
    ensures
        final(s)@ == old(s)@ + one_decimal(tenths(f as nat, den as nat)),
{
    let t = f * 10;
    let q0 = t / den;
    let r = t % den;
    let q = if 2 * r > den || (2 * r == den && q0 % 2 == 1) {
        q0 + 1
    } else {
        q0
    };
    assert(q0 <= t / 0x400) by (nonlinear_arith)
        requires
            q0 == t / den,
            den >= 0x400,
    ;
    assert(q as nat == tenths(f as nat, den as nat));
    assert(q / 10 < 0x1_0000_0000_0000_0000);
    push_decimal(s, (q / 10) as u64);
    push_char(s, '.');
    let last = crate::text::digit_char_of((q % 10) as u64);
    push_char(s, last);
    assert((q / 10) as u64 as nat == (q as nat) / 10);
    assert(((q % 10) as u64) as nat == (q as nat) % 10);
    assert(s@ =~= old(s)@ + one_decimal(q as nat));
}

/// Format size with appropriate unit.
pub fn format_size(bytes: usize) -> (res: String)
    ensures
        res@ == size_text(bytes as nat),
{
    let mut s = String::new();
    if bytes < 1024 {
        push_usize(&mut s, bytes);
        push_char(&mut s, 'B');
    } else if bytes < 1024 * 1024 {
        push_one_decimal(&mut s, bytes as u128, 1024);
        push_char(&mut s, 'K');
        push_char(&mut s, 'B');
    } else {
        let f = f64_value(bytes as u64);
        push_one_decimal(&mut s, f, 1024 * 1024);
        push_char(&mut s, 'M');
        push_char(&mut s, 'B');
    }
    s
}


// ---------------------------------------------------------------------
// Size categories
// ---------------------------------------------------------------------

/// Below this many bytes a node is tiny (~125 tokens).
pub const SMALL_THRESHOLD: usize = 500;

/// Below this many bytes a node is small (~500 tokens).
pub const MEDIUM_THRESHOLD: usize = 2000;

/// From this many bytes on a node is large (~2000 tokens).
pub const LARGE_THRESHOLD: usize = 8000;

/// Categorize node by size.
#[derive(Debug, Clone, Copy, PartialEq, Eq, Structural)]
pub enum SizeCategory {
    Tiny,
    Small,
    Medium,
    Large,
}

/// The category of a size in bytes.
pub open spec fn category_of(bytes: nat) -> SizeCategory {
    if bytes < SMALL_THRESHOLD {
        SizeCategory::Tiny
    } else if bytes < MEDIUM_THRESHOLD {
        SizeCategory::Small
    } else if bytes < LARGE_THRESHOLD {
        SizeCategory::Medium
    } else {
        SizeCategory::Large
    }
}

impl SizeCategory {
    /// Tiny below 500 bytes, small below 2000, medium below 8000, large from 8000.
    pub fn from_bytes(bytes: usize) -> (res: Self)
        ensures
            res == category_of(bytes as nat),
    {
        if bytes < SMALL_THRESHOLD {
            SizeCategory::Tiny
        } else if bytes < MEDIUM_THRESHOLD {
            SizeCategory::Small
        } else if bytes < LARGE_THRESHOLD {
            SizeCategory::Medium
        } else {
            SizeCategory::Large
        }
    }

    /// The marker a listing shows after a node of this category.
    pub open spec fn marker_text(self) -> Seq<char> {
        match self {
            SizeCategory::Tiny => ""@,
            SizeCategory::Small => " [S]"@,
            SizeCategory::Medium => " [M]"@,
            SizeCategory::Large => " [L]"@,
        }
    }

    pub fn marker(&self) -> (res: &'static str)
        ensures
            res@ == self.marker_text(),
    {
        match self {
            SizeCategory::Tiny => "",
            SizeCategory::Small => " [S]",
            SizeCategory::Medium => " [M]",
            SizeCategory::Large => " [L]",
        }
    }
}

// ---------------------------------------------------------------------
// Vault statistics
// ---------------------------------------------------------------------

/// Vault statistics.
#[derive(Debug)]
pub struct VaultStats {
    /// Total number of nodes.
    pub node_count: usize,
    /// Total bytes.
    pub total_bytes: usize,
    /// Total estimated tokens.
    pub total_tokens: usize,
    /// Largest node path.
    pub largest_node: Option<String>,
    /// Largest node bytes.
    pub largest_bytes: usize,
    /// Number of large nodes.
    pub large_count: usize,
    /// Number of medium nodes.
    pub medium_count: usize,
    /// Number of small nodes.
    pub small_count: usize,
    /// Number of tiny nodes.
    pub tiny_count: usize,
}

pub open spec fn total_bytes_of(s: Seq<SizeView>) -> nat
    decreases s.len(),
{
    if s.len() == 0 {
        0
    } else {
        total_bytes_of(s.drop_last()) + s.last().bytes
    }
}

pub open spec fn total_tokens_of(s: Seq<SizeView>) -> nat
    decreases s.len(),
{
    if s.len() == 0 {
        0
    } else {
        total_tokens_of(s.drop_last()) + s.last().tokens
    }
}

/// Number of sizes of `s` in category `c`.
pub open spec fn count_category(s: Seq<SizeView>, c: SizeCategory) -> nat
    decreases s.len(),
{
    if s.len() == 0 {
        0
    } else {
        count_category(s.drop_last(), c) + if category_of(s.last().bytes) == c {
            1nat
        } else {
            0nat
        }
    }
}

/// The statistics of a vault listing: counts, totals, the first of the
/// largest nodes, and the number of nodes in each size category.
pub open spec fn stats_match(st: VaultStats, nodes: Seq<NodeContent>) -> bool {
    let s = sizes_by_bytes(nodes);
    &&& st.node_count == s.len()
    &&& st.total_bytes == total_bytes_of(s)
    &&& st.total_tokens == total_tokens_of(s)
    &&& (if s.len() > 0 {
        &&& st.largest_node matches Some(p) && p@ == s[0].path
        &&& st.largest_bytes == s[0].bytes
    } else {
        st.largest_node is None && st.largest_bytes == 0
    })
    &&& st.large_count == count_category(s, SizeCategory::Large)
    &&& st.medium_count == count_category(s, SizeCategory::Medium)
    &&& st.small_count == count_category(s, SizeCategory::Small)
    &&& st.tiny_count == count_category(s, SizeCategory::Tiny)
}

/// The totals of a listing fit in machine words.
pub open spec fn totals_fit(nodes: Seq<NodeContent>) -> bool {
    &&& total_bytes_of(sizes_by_bytes(nodes)) <= usize::MAX
    &&& total_tokens_of(sizes_by_bytes(nodes)) <= usize::MAX
}

proof fn lemma_totals_monotone(s: Seq<SizeView>, i: int)
    requires
        0 <= i <= s.len(),
    ensures
        total_bytes_of(s.take(i)) <= total_bytes_of(s),
        total_tokens_of(s.take(i)) <= total_tokens_of(s),
        count_category(s.take(i), SizeCategory::Tiny) <= i,
        count_category(s.take(i), SizeCategory::Small) <= i,
        count_category(s.take(i), SizeCategory::Medium) <= i,
        count_category(s.take(i), SizeCategory::Large) <= i,
    decreases s.len() - i,
{
    lemma_counts_bounded(s.take(i));
    if i < s.len() {
        lemma_totals_monotone(s, i + 1);
        assert(s.take(i + 1).drop_last() =~= s.take(i));
    } else {
        assert(s.take(i) =~= s);
    }
}

proof fn lemma_counts_bounded(s: Seq<SizeView>)
    ensures
        count_category(s, SizeCategory::Tiny) <= s.len(),
        count_category(s, SizeCategory::Small) <= s.len(),
        count_category(s, SizeCategory::Medium) <= s.len(),
        count_category(s, SizeCategory::Large) <= s.len(),
    decreases s.len(),
{
    if s.len() > 0 {
        lemma_counts_bounded(s.drop_last());
    }
}

/// Calculate vault statistics.
pub fn vault_stats(nodes: &Vec<NodeContent>) -> (res: VaultStats)
    requires
        totals_fit(nodes@),
    ensures
        stats_match(res, nodes@),
{
    let sizes = all_sizes(nodes);
    let ghost sv = views_of(sizes@);
    let mut total_bytes: usize = 0;
    let mut total_tokens: usize = 0;
    let mut large_count: usize = 0;
    let mut medium_count: usize = 0;
    let mut small_count: usize = 0;
    let mut tiny_count: usize = 0;
    let mut i: usize = 0;
    assert(sv.take(0) =~= Seq::<SizeView>::empty());
    while i < sizes.len()
        invariant
            i <= sizes@.len(),
            sv == views_of(sizes@),
            sv == sizes_by_bytes(nodes@),
            totals_fit(nodes@),
            total_bytes == total_bytes_of(sv.take(i as int)),
            total_tokens == total_tokens_of(sv.take(i as int)),
            large_count == count_category(sv.take(i as int), SizeCategory::Large),
            medium_count == count_category(sv.take(i as int), SizeCategory::Medium),
            small_count == count_category(sv.take(i as int), SizeCategory::Small),
            tiny_count == count_category(sv.take(i as int), SizeCategory::Tiny),
        decreases sizes@.len() - i,
    {
        proof {
            lemma_totals_monotone(sv, i + 1);
            lemma_totals_monotone(sv, i as int);
            assert(sv.take(i + 1).drop_last() =~= sv.take(i as int));
            assert(sv.take(i + 1).last() == sizes@[i as int]@);
        }
        let b = sizes[i].bytes;
        total_bytes = total_bytes + b;
        total_tokens = total_tokens + sizes[i].tokens;
        if b >= LARGE_THRESHOLD {
            large_count = large_count + 1;
        } else if b >= MEDIUM_THRESHOLD {
            medium_count = medium_count + 1;
        } else if b >= SMALL_THRESHOLD {
            small_count = small_count + 1;
        } else {
            tiny_count = tiny_count + 1;
        }
        i += 1;
    }
    assert(sv.take(sizes@.len() as int) =~= sv);
    let (largest_node, largest_bytes) = if sizes.len() > 0 {
        (Some(sizes[0].path.clone()), sizes[0].bytes)
    } else {
        (None, 0)
    };
    VaultStats {
        node_count: sizes.len(),
        total_bytes,
        total_tokens,
        largest_node,
        largest_bytes,
        large_count,
        medium_count,
        small_count,
        tiny_count,
    }
}

/// Whether the totals of the listing's sizes fit in a `usize`.
pub fn totals_fit_check(nodes: &Vec<NodeContent>) -> (res: bool)
    ensures
        res == totals_fit(nodes@),
{
    let sizes = all_sizes(nodes);
    let ghost sv = views_of(sizes@);
    let mut total_bytes: usize = 0;
    let mut total_tokens: usize = 0;
    let mut i: usize = 0;
    assert(sv.take(0) =~= Seq::<SizeView>::empty());
    while i < sizes.len()
        invariant
            i <= sizes@.len(),
            sv == views_of(sizes@),
            sv == sizes_by_bytes(nodes@),
            total_bytes == total_bytes_of(sv.take(i as int)),
            total_tokens == total_tokens_of(sv.take(i as int)),
        decreases sizes@.len() - i,
    {
        proof {
            assert(sv.take(i + 1).drop_last() =~= sv.take(i as int));
            assert(sv.take(i + 1).last() == sizes@[i as int]@);
        }
        match total_bytes.checked_add(sizes[i].bytes) {
            Some(t) => {
                total_bytes = t;
            },
            None => {
                proof {
                    lemma_totals_monotone(sv, i + 1);
                }
                return false;
            },
        }
        match total_tokens.checked_add(sizes[i].tokens) {
            Some(t) => {
                total_tokens = t;
            },
            None => {
                proof {
                    lemma_totals_monotone(sv, i + 1);
                }
                return false;
            },
        }
        i += 1;
    }
    assert(sv.take(sv.len() as int) =~= sv);
    true
}

/// Vault statistics when the totals fit in a `usize`; `None` otherwise
/// (where summing them overflows).
pub fn checked_vault_stats(nodes: &Vec<NodeContent>) -> (res: Option<VaultStats>)
    ensures
        match res {
            Some(st) => totals_fit(nodes@) && stats_match(st, nodes@),
            None => !totals_fit(nodes@),
        },
{
    if totals_fit_check(nodes) {
        Some(vault_stats(nodes))
    } else {
        None
    }
}

/// The overview lines of the report.
pub open spec fn overview_text(st: VaultStats) -> Seq<char> {
    "# Vault Statistics\n\n"@ + "## Overview\n"@ + "- Nodes: "@ + dec(st.node_count as nat) + "\n"@
        + "- Total size: "@ + size_text(st.total_bytes as nat) + "\n"@ + "- Estimated tokens: ~"@
        + dec(st.total_tokens as nat) + "\n\n"@
}

/// The largest-node lines of the report, when there is a node.
pub open spec fn largest_text(st: VaultStats) -> Seq<char> {
    match st.largest_node {
        Some(largest) => "## Largest Node\n"@ + "- [["@ + largest@ + "]] ("@ + size_text(
            st.largest_bytes as nat,
        ) + ")\n\n"@,
        None => Seq::empty(),
    }
}

/// The size distribution lines of the report.
pub open spec fn distribution_text(st: VaultStats) -> Seq<char> {
    distribution_low(st) + distribution_high(st)
}

/// The report that `format_stats` prints.
pub open spec fn stats_text(st: VaultStats) -> Seq<char> {
    overview_text(st) + largest_text(st) + distribution_text(st)
}

fn push_overview(output: &mut String, stats: &VaultStats)
    ensures
        final(output)@ == old(output)@ + overview_text(*stats),
{
    let ghost start = output@;
    output.append("# Vault Statistics\n\n");
    output.append("## Overview\n");
    output.append("- Nodes: ");
    push_usize(output, stats.node_count);
    output.append("\n");
    output.append("- Total size: ");
    output.append(format_size(stats.total_bytes).as_str());
    output.append("\n");
    output.append("- Estimated tokens: ~");
    push_usize(output, stats.total_tokens);
    output.append("\n\n");
    assert(output@ =~= start + overview_text(*stats));
}

fn push_largest(output: &mut String, stats: &VaultStats)
    ensures
        final(output)@ == old(output)@ + largest_text(*stats),
{
    let ghost start = output@;
    match &stats.largest_node {
        Some(largest) => {
            output.append("## Largest Node\n");
            output.append("- [[");
            output.append(largest.as_str());
            output.append("]] (");
            output.append(format_size(stats.largest_bytes).as_str());
            output.append(")\n\n");
        },
        None => {},
    }
    assert(output@ =~= start + largest_text(*stats));
}

/// The first half of the size distribution lines.
pub open spec fn distribution_low(st: VaultStats) -> Seq<char> {
    "## Size Distribution\n"@ + "- Tiny (<"@ + dec(SMALL_THRESHOLD as nat) + "): "@ + dec(
        st.tiny_count as nat,
    ) + "\n"@ + "- Small ("@ + dec(SMALL_THRESHOLD as nat) + "-"@ + dec(MEDIUM_THRESHOLD as nat)
        + "): "@ + dec(st.small_count as nat) + "\n"@
}

/// The second half of the size distribution lines.
pub open spec fn distribution_high(st: VaultStats) -> Seq<char> {
    "- Medium ("@ + dec(MEDIUM_THRESHOLD as nat) + "-"@ + dec(LARGE_THRESHOLD as nat) + "): "@ + dec(
        st.medium_count as nat,
    ) + "\n"@ + "- Large (>"@ + dec(LARGE_THRESHOLD as nat) + "): "@ + dec(st.large_count as nat) + "\n"@
}

#[verifier::rlimit(40)]
fn push_distribution_low(output: &mut String, stats: &VaultStats)
    ensures
        final(output)@ == old(output)@ + distribution_low(*stats),
{
    let ghost start = output@;
    output.append("## Size Distribution\n");
    output.append("- Tiny (<");
    push_usize(output, SMALL_THRESHOLD);
    output.append("): ");
    push_usize(output, stats.tiny_count);
    output.append("\n");
    output.append("- Small (");
    push_usize(output, SMALL_THRESHOLD);
    output.append("-");
    push_usize(output, MEDIUM_THRESHOLD);
    output.append("): ");
    push_usize(output, stats.small_count);
    output.append("\n");
    assert(output@ =~= start + distribution_low(*stats));
}

#[verifier::rlimit(40)]
fn push_distribution_high(output: &mut String, stats: &VaultStats)
    ensures
        final(output)@ == old(output)@ + distribution_high(*stats),
{
    let ghost start = output@;
    output.append("- Medium (");
    push_usize(output, MEDIUM_THRESHOLD);
    output.append("-");
    push_usize(output, LARGE_THRESHOLD);
    output.append("): ");
    push_usize(output, stats.medium_count);
    output.append("\n");
    output.append("- Large (>");
    push_usize(output, LARGE_THRESHOLD);
    output.append("): ");
    push_usize(output, stats.large_count);
    output.append("\n");
    assert(output@ =~= start + distribution_high(*stats));
}

fn push_distribution(output: &mut String, stats: &VaultStats)
    ensures
        final(output)@ == old(output)@ + distribution_text(*stats),
{
    let ghost start = output@;
    push_distribution_low(output, stats);
    push_distribution_high(output, stats);
    assert(output@ =~= start + distribution_text(*stats));
}

/// Format vault stats for display.
pub fn format_stats(stats: &VaultStats) -> (res: String)
    ensures
        res@ == stats_text(*stats),
{
    let mut output = String::new();
    push_overview(&mut output, stats);
    push_largest(&mut output, stats);
    push_distribution(&mut output, stats);
    assert(output@ =~= stats_text(*stats));
    output
}

} // verus!
