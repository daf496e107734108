//! The memory index: a generated table of contents of the vault.
use vstd::prelude::*;
use vstd::utf8::{decode_utf8, encode_utf8, encode_utf8_decode_utf8, is_char_boundary};

use crate::link::{backlink_sources, backlinks, links_of, parse_links};
use crate::node::{NodeContent, NodeWrite};
use crate::survey::{more_first, pairs_view, sort_pairs};
use crate::tags::{has_key, keys_ascending, list_tags, tagged_paths};
use crate::text::{
    dec, dedup_keep_first, distinct_strings, find_char_from, lines, push_decimal, push_usize,
    range_starts_with, skip_ws, skip_ws_back, sort_by_insertion, sort_strings, split_lines,
    starts_with, string_of, text_before, to_chars, trim,
};

verus! {

/// Memory index node path.
pub const INDEX_PATH: &'static str = "global/index";

// ---------------------------------------------------------------------
// Excerpts
// ---------------------------------------------------------------------

/// `s` with every leading copy of `p` removed, as `str::trim_start_matches` does.
pub open spec fn strip_all(s: Seq<char>, p: Seq<char>) -> Seq<char>
    decreases s.len(),
{
    if p.len() > 0 && starts_with(s, p) {
        strip_all(s.skip(p.len() as int), p)
    } else {
        s
    }
}

/// The text a line offers for an excerpt: trimmed, list markers removed.
pub open spec fn excerpt_text(l: Seq<char>) -> Seq<char> {
    strip_all(strip_all(trim(l), "- "@), "* "@)
}

/// Lines that an excerpt passes over: blank lines and headings.
pub open spec fn passed_over(l: Seq<char>) -> bool {
    trim(l).len() == 0 || trim(l)[0] == '#'
}

/// The excerpt text of the first line that offers one.
pub open spec fn first_excerpt(ls: Seq<Seq<char>>) -> Option<Seq<char>>
    decreases ls.len(),
{
    if ls.len() == 0 {
        None
    } else if !passed_over(ls[0]) && excerpt_text(ls[0]).len() > 0 {
        Some(excerpt_text(ls[0]))
    } else {
        first_excerpt(ls.drop_first())
    }
}

/// The length in bytes of a text, as `str::len` gives it.
pub open spec fn byte_len(t: Seq<char>) -> nat {
    (encode_utf8(t).len() as usize) as nat
}

/// The characters encoded by the first `max` bytes of `t`.
pub open spec fn cut_bytes(t: Seq<char>, max: nat) -> Seq<char> {
    decode_utf8(encode_utf8(t).subrange(0, max as int))
}

/// The excerpt of a node: the first line that offers one, cut to `max`
/// bytes with `...` if it is longer; `_(empty)_` when there is none or the
/// node could not be read.
pub open spec fn excerpt_of(content: Option<Seq<char>>, max: nat) -> Seq<char> {
    match content {
        Some(c) => match first_excerpt(lines(c)) {
            Some(t) => if byte_len(t) > max {
                cut_bytes(t, max) + "..."@
            } else {
                t
            },
            None => "_(empty)_"@,
        },
        None => "_(empty)_"@,
    }
}

/// The text of an optional string.
pub open spec fn text_of(content: &Option<String>) -> Option<Seq<char>> {
    match content {
        Some(c) => Some(c@),
        None => None,
    }
}

/// The excerpt can be cut where it has to be: a text longer than `max`
/// bytes has a character boundary at `max` (cutting elsewhere panics).
pub open spec fn excerpt_fits(content: Option<Seq<char>>, max: nat) -> bool {
    match content {
        Some(c) => match first_excerpt(lines(c)) {
            Some(t) => byte_len(t) > max ==> is_char_boundary(encode_utf8(t), max as int),
            None => true,
        },
        None => true,
    }
}

/// Where the leading copies of the two-character marker `m0 m1` end in `v[from..to]`.
fn skip_markers(v: &Vec<char>, from: usize, to: usize, marker: &str) -> (res: usize)
    requires
        from <= to <= v@.len(),
        marker@.len() == 2,
    ensures
        from <= res <= to,
        v@.subrange(res as int, to as int) == strip_all(v@.subrange(from as int, to as int), marker@),
{
    let m0 = marker.get_char(0);
    let m1 = marker.get_char(1);
    let mut k = from;
    while to - k >= 2 && v[k] == m0 && v[k + 1] == m1
        invariant
            from <= k <= to <= v@.len(),
            m0 == marker@[0],
            m1 == marker@[1],
            marker@.len() == 2,
            strip_all(v@.subrange(from as int, to as int), marker@) == strip_all(
                v@.subrange(k as int, to as int),
                marker@,
            ),
        decreases to - k,
    {
        let ghost s = v@.subrange(k as int, to as int);
        assert(s.subrange(0, 2) =~= marker@);
        assert(s.skip(2) =~= v@.subrange(k + 2, to as int));
        k += 2;
    }
    proof {
        let s = v@.subrange(k as int, to as int);
        if starts_with(s, marker@) {
            assert(s[0] == marker@[0]);
            assert(s[1] == marker@[1]);
        }
    }
    k
}

/// The excerpt text of the first line of `c` that offers one.
fn first_excerpt_text(c: &str) -> (res: Option<String>)
    ensures
        match res {
            Some(t) => first_excerpt(lines(c@)) == Some(t@),
            None => first_excerpt(lines(c@)) is None,
        },
{
    proof {
        reveal_strlit("- ");
        reveal_strlit("* ");
    }
    let cs = to_chars(c);
    let ls = split_lines(&cs);
    let ghost lv = lines(c@);
    assert(ls.deep_view() == lv);
    let mut j: usize = 0;
    assert(lv.skip(0) =~= lv);
    while j < ls.len()
        invariant
            ls.deep_view() == lv,
            lv == lines(c@),
            j <= lv.len(),
            first_excerpt(lv) == first_excerpt(lv.skip(j as int)),
            "- "@.len() == 2,
            "* "@.len() == 2,
        decreases lv.len() - j,
    {
        let l = &ls[j];
        assert(lv[j as int] == l@);
        assert(lv.skip(j as int).drop_first() =~= lv.skip(j + 1));
        assert(lv.skip(j as int)[0] == l@);
        let n = l.len();
        let a = skip_ws(l, 0, n);
        let b = skip_ws_back(l, a, n);
        assert(l@.subrange(0, n as int) =~= l@);
        assert(trim(l@) =~= l@.subrange(a as int, b as int));
        if a < b && l[a] != '#' {
            let k = skip_markers(l, a, b, "- ");
            let m = skip_markers(l, k, b, "* ");
            assert(excerpt_text(l@) == l@.subrange(m as int, b as int));
            if m < b {
                assert(!passed_over(l@));
                return Some(string_of(l, m, b));
            }
        }
        j += 1;
    }
    assert(lv.skip(lv.len() as int) =~= Seq::<Seq<char>>::empty());
    None
}

/// Get a short excerpt from a node (first non-empty line, truncated).
fn get_excerpt(content: &Option<String>, max_len: usize) -> (res: String)
    requires
        excerpt_fits(text_of(content), max_len as nat),
    ensures
        res@ == excerpt_of(text_of(content), max_len as nat),
{
    match content {
        Some(c) => match first_excerpt_text(c.as_str()) {
            Some(text) => {
                let blen = text.as_str().len();
                assert(blen as nat == byte_len(text@));
                if blen > max_len {
                    let (head, _) = text.as_str().split_at(max_len);
                    proof {
                        encode_utf8_decode_utf8(head@);
                    }
                    let mut out = String::from_str(head);
                    out.append("...");
                    out
                } else {
                    text
                }
            },
            None => String::from_str("_(empty)_"),
        },
        None => String::from_str("_(empty)_"),
    }
}

/// Whether the excerpt of a node can be cut at `max_len` bytes.
fn excerpt_fits_check(content: &Option<String>, max_len: usize) -> (res: bool)
    ensures
        res == excerpt_fits(text_of(content), max_len as nat),
{
    match content {
        Some(c) => match first_excerpt_text(c.as_str()) {
            Some(text) => {
                let blen = text.as_str().len();
                assert(blen as nat == byte_len(text@));
                blen <= max_len || text.as_str().is_char_boundary(max_len)
            },
            None => true,
        },
        None => true,
    }
}

// ---------------------------------------------------------------------
// Timestamp
// ---------------------------------------------------------------------

/// Two digits at least, zero-padded, as `{:02}` writes a number.
pub open spec fn pad2(n: nat) -> Seq<char> {
    if n < 10 {
        "0"@ + dec(n)
    } else {
        dec(n)
    }
}

/// The date the index shows for `secs` seconds after the epoch: years of
/// 365 days and months of 30 days counted from 1970 (an approximation).
pub open spec fn date_text(secs: nat) -> Seq<char> {
    let days = secs / 86400;
    let rem = days % 365;
    dec(1970 + days / 365) + "-"@ + pad2(rem / 30 + 1) + "-"@ + pad2(rem % 30 + 1)
}

fn push_pad2(s: &mut String, n: u64)
    ensures
        final(s)@ == old(s)@ + pad2(n as nat),
{
    if n < 10 {
        s.append("0");
    }
    push_decimal(s, n);
}

/// The date shown for a number of seconds since the epoch.
pub fn date_of(secs: u64) -> (res: String)
    ensures
        res@ == date_text(secs as nat),
{
    let days = secs / 86400;
    let years = 1970 + days / 365;
    let rem = days % 365;
    let mut s = String::new();
    push_decimal(&mut s, years);
    s.append("-");
    push_pad2(&mut s, rem / 30 + 1);
    s.append("-");
    push_pad2(&mut s, rem % 30 + 1);
    s
}

#[verifier::external_type_specification]
#[verifier::external_body]
pub struct ExSystemTime(std::time::SystemTime);

/// Trusted: `SystemTime::now`; nothing is claimed of the reading, which
/// depends on the clock.
#[verifier::external_body]
fn clock_now() -> std::time::SystemTime {
    std::time::SystemTime::now()
}

/// Trusted: `SystemTime::duration_since(UNIX_EPOCH)`, `None` when the time
/// is before the epoch; the duration is opaque here, nothing is claimed.
#[verifier::external_body]
fn since_epoch(t: std::time::SystemTime) -> Option<std::time::Duration> {
    t.duration_since(std::time::UNIX_EPOCH).ok()
}

/// Trusted: `Duration::as_secs`; the duration is opaque here, nothing is
/// claimed of the count.
#[verifier::external_body]
fn whole_secs(d: std::time::Duration) -> u64 {
    d.as_secs()
}

/// Seconds since the Unix epoch, 0 if the clock is before it.
fn now_secs() -> u64 {
    match since_epoch(clock_now()) {
        Some(d) => whole_secs(d),
        None => 0,
    }
}

/// Get current timestamp for index.
fn chrono_timestamp() -> (res: String)
    ensures
        exists|secs: u64| res@ == date_text(secs as nat),
{
    let secs = now_secs();
    date_of(secs)
}

// ---------------------------------------------------------------------
// The document
// ---------------------------------------------------------------------

/// How many tags, and how many orphans, the index names at most.
pub const SHOWN: usize = 10;

pub open spec fn is_global(p: Seq<char>) -> bool {
    starts_with(p, "global/"@)
}

pub open spec fn is_project(p: Seq<char>) -> bool {
    starts_with(p, "projects/"@)
}

/// The project of a node under `projects/`: its next path segment.
pub open spec fn project_of(p: Seq<char>) -> Seq<char> {
    let rest = p.skip("projects/"@.len() as int);
    rest.take(find_char_from(rest, '/', 0))
}

/// An entry of the index: a link to the node and its excerpt.
pub open spec fn entry_line(e: NodeContent, max: nat) -> Seq<char> {
    "- [["@ + e.path@ + "]] — "@ + excerpt_of(e.text(), max) + "\n"@
}

/// The entries of the global nodes, in listing order.
pub open spec fn global_lines(ns: Seq<NodeContent>) -> Seq<char>
    decreases ns.len(),
{
    if ns.len() == 0 {
        Seq::empty()
    } else {
        global_lines(ns.drop_last()) + if is_global(ns.last().path@) {
            entry_line(ns.last(), 80)
        } else {
            Seq::empty()
        }
    }
}

pub open spec fn has_global(ns: Seq<NodeContent>) -> bool {
    exists|i: int| 0 <= i < ns.len() && is_global(#[trigger] ns[i].path@)
}

pub open spec fn global_section(ns: Seq<NodeContent>) -> Seq<char> {
    if has_global(ns) {
        global_lines(ns) + "\n"@
    } else {
        "_(no global nodes)_\n\n"@
    }
}

/// The projects of the project nodes, in listing order, with repeats.
pub open spec fn project_names(ns: Seq<NodeContent>) -> Seq<Seq<char>>
    decreases ns.len(),
{
    if ns.len() == 0 {
        Seq::empty()
    } else {
        let r = project_names(ns.drop_last());
        if is_project(ns.last().path@) {
            r.push(project_of(ns.last().path@))
        } else {
            r
        }
    }
}

/// The entries of the nodes of project `n`, in listing order.
pub open spec fn project_lines(ns: Seq<NodeContent>, n: Seq<char>) -> Seq<char>
    decreases ns.len(),
{
    if ns.len() == 0 {
        Seq::empty()
    } else {
        project_lines(ns.drop_last(), n) + if is_project(ns.last().path@) && project_of(ns.last().path@) == n {
            entry_line(ns.last(), 60)
        } else {
            Seq::empty()
        }
    }
}

/// A block per project of `names`, in order.
pub open spec fn project_blocks(ns: Seq<NodeContent>, names: Seq<Seq<char>>) -> Seq<char>
    decreases names.len(),
{
    if names.len() == 0 {
        Seq::empty()
    } else {
        project_blocks(ns, names.drop_last()) + "### "@ + names.last() + "\n\n"@ + project_lines(ns, names.last())
            + "\n"@
    }
}

pub open spec fn projects_section(ns: Seq<NodeContent>) -> Seq<char> {
    let names = sort_by_insertion(dedup_keep_first(project_names(ns)), text_before());
    if names.len() == 0 {
        "_(no projects)_\n\n"@
    } else {
        project_blocks(ns, names)
    }
}

/// The tags with their node counts as `list_tags` gives them: ascending,
/// each tag used in the listing once, with the number of nodes carrying it.
pub open spec fn tag_listing(nodes: Seq<NodeContent>, l: Seq<(Seq<char>, nat)>) -> bool {
    &&& keys_ascending(l)
    &&& forall|k: int| 0 <= k < l.len() ==> #[trigger] l[k].1 == tagged_paths(nodes, l[k].0).len()
    &&& forall|t: Seq<char>| #[trigger] has_key(l, t) <==> tagged_paths(nodes, t).len() > 0
}

pub open spec fn tag_lines(r: Seq<(Seq<char>, nat)>) -> Seq<char>
    decreases r.len(),
{
    if r.len() == 0 {
        Seq::empty()
    } else {
        tag_lines(r.drop_last()) + "#"@ + r.last().0 + " ("@ + dec(r.last().1) + " nodes)\n"@
    }
}

/// The tags section for the tag listing `l`: the most used tags first (by
/// name among equals), at most `SHOWN` of them.
pub open spec fn tags_section(l: Seq<(Seq<char>, nat)>) -> Seq<char> {
    let r = sort_by_insertion(l, more_first());
    if r.len() == 0 {
        "_(no tags)_\n\n"@
    } else {
        tag_lines(r.take(if r.len() > SHOWN { SHOWN as int } else { r.len() as int })) + (if r.len() > SHOWN {
            "... and "@ + dec((r.len() - SHOWN) as nat) + " more tags\n"@
        } else {
            Seq::empty()
        }) + "\n"@
    }
}

/// The nodes of `ns` that were read and have no outgoing link and no
/// backlink from the vault listing `all`, in listing order.
pub open spec fn index_orphans(ns: Seq<NodeContent>, all: Seq<NodeContent>) -> Seq<Seq<char>>
    decreases ns.len(),
{
    if ns.len() == 0 {
        Seq::empty()
    } else {
        let r = index_orphans(ns.drop_last(), all);
        let e = ns.last();
        if e.text() matches Some(c) && links_of(c).len() == 0 && backlink_sources(all, e.path@).len() == 0 {
            r.push(e.path@)
        } else {
            r
        }
    }
}

pub open spec fn orphan_lines(o: Seq<Seq<char>>) -> Seq<char>
    decreases o.len(),
{
    if o.len() == 0 {
        Seq::empty()
    } else {
        orphan_lines(o.drop_last()) + "- [["@ + o.last() + "]]\n"@
    }
}

pub open spec fn orphans_section(ns: Seq<NodeContent>, all: Seq<NodeContent>) -> Seq<char> {
    let o = sort_by_insertion(index_orphans(ns, all), text_before());
    if o.len() == 0 {
        "_(no orphans)_\n\n"@
    } else {
        orphan_lines(o.take(if o.len() > SHOWN { SHOWN as int } else { o.len() as int })) + (if o.len() > SHOWN {
            "... and "@ + dec((o.len() - SHOWN) as nat) + " more\n"@
        } else {
            Seq::empty()
        }) + "\n"@
    }
}

/// The index of the listing `ns` (the nodes under the scope) within the vault
/// listing `all`, stamped `stamp`, with the tag listing `l` of `ns`.
pub open spec fn index_text(
    ns: Seq<NodeContent>,
    all: Seq<NodeContent>,
    stamp: Seq<char>,
    l: Seq<(Seq<char>, nat)>,
) -> Seq<char> {
    "# Memory Index\n\n"@ + "> Auto-generated vault overview. Last updated: "@ + stamp + "\n\n"@ + "**"@
        + dec(ns.len()) + " nodes** in vault\n\n"@ + "## Global\n\n"@ + global_section(ns)
        + "## Projects\n\n"@ + projects_section(ns) + "## Tags\n\n"@ + tags_section(l)
        + "## Orphans\n\n"@ + "_Nodes with no incoming or outgoing links._\n\n"@ + orphans_section(ns, all)
}

/// Every excerpt the index shows can be cut where it has to be.
pub open spec fn excerpts_fit(ns: Seq<NodeContent>) -> bool {
    forall|i: int|
        0 <= i < ns.len() ==> (is_global(#[trigger] ns[i].path@) ==> excerpt_fits(ns[i].text(), 80)) && (
        is_project(ns[i].path@) ==> excerpt_fits(ns[i].text(), 60))
}

/// Whether every excerpt that the index of `nodes` shows can be cut where
/// it has to be; where one cannot, making the index panics.
pub fn index_excerpts_fit(nodes: &Vec<NodeContent>) -> (res: bool)
    ensures
        res == excerpts_fit(nodes@),
{
    let mut i: usize = 0;
    while i < nodes.len()
        invariant
            i <= nodes@.len(),
            forall|k: int|
                0 <= k < i ==> (is_global(#[trigger] nodes@[k].path@) ==> excerpt_fits(nodes@[k].text(), 80)) && (
                is_project(nodes@[k].path@) ==> excerpt_fits(nodes@[k].text(), 60)),
        decreases nodes@.len() - i,
    {
        let e = &nodes[i];
        let pc = to_chars(e.path.as_str());
        let g = range_starts_with(&pc, 0, pc.len(), "global/");
        let pr = range_starts_with(&pc, 0, pc.len(), "projects/");
        assert(pc@.subrange(0, pc@.len() as int) =~= e.path@);
        if g && !excerpt_fits_check(&e.content, 80) {
            return false;
        }
        if pr && !excerpt_fits_check(&e.content, 60) {
            return false;
        }
        i += 1;
    }
    true
}

fn push_entry(out: &mut String, e: &NodeContent, max_len: usize)
    requires
        excerpt_fits(e.text(), max_len as nat),
    ensures
        final(out)@ == old(out)@ + entry_line(*e, max_len as nat),
{
    let ghost start = out@;
    out.append("- [[");
    out.append(e.path.as_str());
    out.append("]] — ");
    let x = get_excerpt(&e.content, max_len);
    out.append(x.as_str());
    out.append("\n");
    assert(out@ =~= start + entry_line(*e, max_len as nat));
}

/// The project of a project node path.
fn project_name(p: &String) -> (res: String)
    requires
        is_project(p@),
    ensures
        res@ == project_of(p@),
{
    proof {
        reveal_strlit("projects/");
    }
    let cs = to_chars(p.as_str());
    let n = cs.len();
    let ghost rest = p@.skip(9);
    let mut k: usize = 9;
    assert(find_char_from(rest, '/', 0) == find_char_from(rest, '/', 0));
    while k < n && cs[k] != '/'
        invariant
            9 <= k <= n,
            n == cs@.len(),
            cs@ == p@,
            rest == p@.skip(9),
            find_char_from(rest, '/', 0) == find_char_from(rest, '/', k - 9),
        decreases n - k,
    {
        assert(rest[k - 9] == cs@[k as int]);
        k += 1;
    }
    if k < n {
        assert(rest[k - 9] == cs@[k as int]);
    }
    let r = string_of(&cs, 9, k);
    assert(r@ =~= rest.take(k - 9));
    r
}

proof fn lemma_no_global_lines(ns: Seq<NodeContent>)
    requires
        !has_global(ns),
    ensures
        global_lines(ns) == Seq::<char>::empty(),
    decreases ns.len(),
{
    if ns.len() > 0 {
        assert forall|i: int| 0 <= i < ns.drop_last().len() implies !is_global(#[trigger] ns.drop_last()[i].path@) by {
            assert(ns.drop_last()[i] == ns[i]);
        }
        lemma_no_global_lines(ns.drop_last());
        assert(!is_global(ns[ns.len() - 1].path@));
    }
}

fn push_global_section(out: &mut String, ns: &Vec<NodeContent>)
    requires
        excerpts_fit(ns@),
    ensures
        final(out)@ == old(out)@ + global_section(ns@),
{
    let ghost start = out@;
    let mut any = false;
    let mut i: usize = 0;
    assert(ns@.take(0) =~= Seq::<NodeContent>::empty());
    while i < ns.len()
        invariant
            i <= ns@.len(),
            excerpts_fit(ns@),
            out@ == start + global_lines(ns@.take(i as int)),
            any == has_global(ns@.take(i as int)),
        decreases ns@.len() - i,
    {
        let e = &ns[i];
        assert(ns@.take(i + 1).drop_last() =~= ns@.take(i as int));
        assert(ns@.take(i + 1).last() == *e);
        let pc = to_chars(e.path.as_str());
        assert(pc@.subrange(0, pc@.len() as int) =~= e.path@);
        let g = range_starts_with(&pc, 0, pc.len(), "global/");
        if g {
            assert(is_global(ns@[i as int].path@));
            push_entry(out, e, 80);
            any = true;
            assert(ns@.take(i + 1)[i as int] == *e);
        } else {
            assert(out@ =~= start + global_lines(ns@.take(i + 1)));
            assert forall|k: int| 0 <= k < i + 1 && is_global(#[trigger] ns@.take(i + 1)[k].path@) implies 0 <= k < i
                && is_global(ns@.take(i as int)[k].path@) by {
                if k < i {
                    assert(ns@.take(i + 1)[k] == ns@.take(i as int)[k]);
                }
            }
        }
        if any && !g {
            let ghost k = choose|k: int| 0 <= k < i && is_global(#[trigger] ns@.take(i as int)[k].path@);
            assert(ns@.take(i + 1)[k] == ns@.take(i as int)[k]);
        }
        i += 1;
    }
    assert(ns@.take(ns@.len() as int) =~= ns@);
    if !any {
        proof {
            lemma_no_global_lines(ns@);
        }
    }
    if any {
        out.append("\n");
    } else {
        out.append("_(no global nodes)_\n\n");
    }
}

fn push_project_lines(out: &mut String, ns: &Vec<NodeContent>, name: &String)
    requires
        excerpts_fit(ns@),
    ensures
        final(out)@ == old(out)@ + project_lines(ns@, name@),
{
    let ghost start = out@;
    let mut i: usize = 0;
    assert(ns@.take(0) =~= Seq::<NodeContent>::empty());
    while i < ns.len()
        invariant
            i <= ns@.len(),
            excerpts_fit(ns@),
            out@ == start + project_lines(ns@.take(i as int), name@),
        decreases ns@.len() - i,
    {
        let e = &ns[i];
        assert(ns@.take(i + 1).drop_last() =~= ns@.take(i as int));
        assert(ns@.take(i + 1).last() == *e);
        let pc = to_chars(e.path.as_str());
        assert(pc@.subrange(0, pc@.len() as int) =~= e.path@);
        if range_starts_with(&pc, 0, pc.len(), "projects/") {
            let pn = project_name(&e.path);
            if pn == *name {
                assert(is_project(ns@[i as int].path@));
                push_entry(out, e, 60);
            } else {
                assert(out@ =~= start + project_lines(ns@.take(i + 1), name@));
            }
        } else {
            assert(out@ =~= start + project_lines(ns@.take(i + 1), name@));
        }
        i += 1;
    }
    assert(ns@.take(ns@.len() as int) =~= ns@);
}

fn push_projects_section(out: &mut String, ns: &Vec<NodeContent>)
    requires
        excerpts_fit(ns@),
    ensures
        final(out)@ == old(out)@ + projects_section(ns@),
{
    let ghost start = out@;
    let mut found: Vec<String> = Vec::new();
    let mut i: usize = 0;
    assert(ns@.take(0) =~= Seq::<NodeContent>::empty());
    while i < ns.len()
        invariant
            i <= ns@.len(),
            found.deep_view() == project_names(ns@.take(i as int)),
        decreases ns@.len() - i,
    {
        let e = &ns[i];
        assert(ns@.take(i + 1).drop_last() =~= ns@.take(i as int));
        assert(ns@.take(i + 1).last() == *e);
        let pc = to_chars(e.path.as_str());
        assert(pc@.subrange(0, pc@.len() as int) =~= e.path@);
        if range_starts_with(&pc, 0, pc.len(), "projects/") {
            let pn = project_name(&e.path);
            let ghost old_dv = found.deep_view();
            found.push(pn);
            assert(found.deep_view() =~= old_dv.push(project_of(e.path@)));
        }
        i += 1;
    }
    assert(ns@.take(ns@.len() as int) =~= ns@);
    let names = sort_strings(distinct_strings(&found));
    let ghost nv = names.deep_view();
    if names.len() == 0 {
        out.append("_(no projects)_\n\n");
        return;
    }
    let mut q: usize = 0;
    assert(nv.take(0) =~= Seq::<Seq<char>>::empty());
    while q < names.len()
        invariant
            nv == names.deep_view(),
            q <= nv.len(),
            excerpts_fit(ns@),
            out@ == start + project_blocks(ns@, nv.take(q as int)),
        decreases nv.len() - q,
    {
        assert(nv.take(q + 1).drop_last() =~= nv.take(q as int));
        assert(nv.take(q + 1).last() == names@[q as int]@);
        let ghost before = out@;
        out.append("### ");
        out.append(names[q].as_str());
        out.append("\n\n");
        push_project_lines(out, ns, &names[q]);
        out.append("\n");
        assert(out@ =~= before + "### "@ + names@[q as int]@ + "\n\n"@ + project_lines(ns@, names@[q as int]@) + "\n"@);
        q += 1;
    }
    assert(nv.take(nv.len() as int) =~= nv);
}

fn push_tags_section(out: &mut String, l: &Vec<(String, usize)>)
    ensures
        final(out)@ == old(out)@ + tags_section(pairs_view(l.deep_view())),
{
    let ghost start = out@;
    let r = sort_pairs(clone_pairs(l), true);
    let ghost rv = pairs_view(r.deep_view());
    if r.len() == 0 {
        out.append("_(no tags)_\n\n");
        return;
    }
    let shown: usize = if r.len() > SHOWN {
        SHOWN
    } else {
        r.len()
    };
    let mut k: usize = 0;
    assert(rv.take(0) =~= Seq::<(Seq<char>, nat)>::empty());
    while k < shown
        invariant
            rv == pairs_view(r.deep_view()),
            shown <= rv.len(),
            k <= shown,
            out@ == start + tag_lines(rv.take(k as int)),
        decreases shown - k,
    {
        assert(rv.take(k + 1).drop_last() =~= rv.take(k as int));
        assert(rv.take(k + 1).last() == (r@[k as int].0@, r@[k as int].1 as nat));
        out.append("#");
        out.append(r[k].0.as_str());
        out.append(" (");
        push_usize(out, r[k].1);
        out.append(" nodes)\n");
        k += 1;
    }
    let ghost mid = out@;
    if r.len() > SHOWN {
        out.append("... and ");
        push_usize(out, r.len() - SHOWN);
        out.append(" more tags\n");
    }
    let ghost mid2 = out@;
    out.append("\n");
    assert(mid2 =~= mid + (if rv.len() > SHOWN {
        "... and "@ + dec((rv.len() - SHOWN) as nat) + " more tags\n"@
    } else {
        Seq::empty()
    }));
    assert(out@ =~= start + tags_section(pairs_view(l.deep_view())));
}

/// A copy of a list of pairs.
fn clone_pairs(l: &Vec<(String, usize)>) -> (res: Vec<(String, usize)>)
    ensures
        res.deep_view() == l.deep_view(),
{
    let mut res: Vec<(String, usize)> = Vec::new();
    let mut i: usize = 0;
    while i < l.len()
        invariant
            i <= l@.len(),
            res.deep_view() =~= l.deep_view().take(i as int),
        decreases l@.len() - i,
    {
        let ghost old_dv = res.deep_view();
        res.push((l[i].0.clone(), l[i].1));
        assert(res.deep_view() =~= old_dv.push(l.deep_view()[i as int]));
        i += 1;
    }
    assert(l.deep_view().take(l@.len() as int) =~= l.deep_view());
    res
}

fn push_orphans_section(out: &mut String, ns: &Vec<NodeContent>, all: &Vec<NodeContent>)
    ensures
        final(out)@ == old(out)@ + orphans_section(ns@, all@),
{
    let ghost start = out@;
    let mut found: Vec<String> = Vec::new();
    let mut i: usize = 0;
    assert(ns@.take(0) =~= Seq::<NodeContent>::empty());
    while i < ns.len()
        invariant
            i <= ns@.len(),
            found.deep_view() == index_orphans(ns@.take(i as int), all@),
        decreases ns@.len() - i,
    {
        let e = &ns[i];
        assert(ns@.take(i + 1).drop_last() =~= ns@.take(i as int));
        assert(ns@.take(i + 1).last() == *e);
        match &e.content {
            Some(c) => {
                let outgoing = parse_links(c.as_str());
                let incoming = backlinks(all, e.path.as_str());
                proof {
                    crate::text::lemma_sort_len(backlink_sources(all@, e.path@), text_before());
                }
                if outgoing.len() == 0 && incoming.len() == 0 {
                    let ghost old_dv = found.deep_view();
                    found.push(e.path.clone());
                    assert(found.deep_view() =~= old_dv.push(e.path@));
                }
            },
            None => {},
        }
        i += 1;
    }
    assert(ns@.take(ns@.len() as int) =~= ns@);
    let o = sort_strings(found);
    let ghost ov = o.deep_view();
    if o.len() == 0 {
        out.append("_(no orphans)_\n\n");
        return;
    }
    let shown: usize = if o.len() > SHOWN {
        SHOWN
    } else {
        o.len()
    };
    let mut k: usize = 0;
    assert(ov.take(0) =~= Seq::<Seq<char>>::empty());
    while k < shown
        invariant
            ov == o.deep_view(),
            shown <= ov.len(),
            k <= shown,
            out@ == start + orphan_lines(ov.take(k as int)),
        decreases shown - k,
    {
        assert(ov.take(k + 1).drop_last() =~= ov.take(k as int));
        assert(ov.take(k + 1).last() == o@[k as int]@);
        out.append("- [[");
        out.append(o[k].as_str());
        out.append("]]\n");
        k += 1;
    }
    let ghost mid = out@;
    if o.len() > SHOWN {
        out.append("... and ");
        push_usize(out, o.len() - SHOWN);
        out.append(" more\n");
    }
    let ghost mid2 = out@;
    out.append("\n");
    assert(mid2 =~= mid + (if ov.len() > SHOWN {
        "... and "@ + dec((ov.len() - SHOWN) as nat) + " more\n"@
    } else {
        Seq::empty()
    }));
    assert(out@ =~= start + orphans_section(ns@, all@));
}

/// The index text of `scoped` within `all`, stamped `stamp`, with the
/// tag listing of `scoped` (there is exactly one).
pub open spec fn index_for(scoped: Seq<NodeContent>, all: Seq<NodeContent>, stamp: Seq<char>) -> Seq<char> {
    index_text(scoped, all, stamp, choose|l: Seq<(Seq<char>, nat)>| tag_listing(scoped, l))
}

/// With a tag listing of `scoped` in hand, `index_for` is the index text
/// over it.
pub proof fn lemma_index_for(scoped: Seq<NodeContent>, all: Seq<NodeContent>, stamp: Seq<char>, l: Seq<(Seq<char>, nat)>)
    requires
        tag_listing(scoped, l),
    ensures
        index_for(scoped, all, stamp) == index_text(scoped, all, stamp, l),
{
    let c = choose|l: Seq<(Seq<char>, nat)>| tag_listing(scoped, l);
    crate::laws::law_tag_listing_unique(scoped, l, c);
}

/// The memory index of the nodes `scoped` (the listing under the scope,
/// with what reading each gave) within the vault listing `all`, stamped
/// `stamp`: node count, global nodes, projects, tags and orphans.
pub fn index_document(scoped: &Vec<NodeContent>, all: &Vec<NodeContent>, stamp: &str) -> (res: String)
    requires
        excerpts_fit(scoped@),
    ensures
        exists|l: Seq<(Seq<char>, nat)>| tag_listing(scoped@, l) && res@ == index_text(scoped@, all@, stamp@, l),
        res@ == index_for(scoped@, all@, stamp@),
{
    let res = index_document_over(scoped, all, stamp);
    proof {
        let l = choose|l: Seq<(Seq<char>, nat)>| tag_listing(scoped@, l) && res@ == index_text(scoped@, all@, stamp@, l);
        lemma_index_for(scoped@, all@, stamp@, l);
    }
    res
}

fn index_document_over(scoped: &Vec<NodeContent>, all: &Vec<NodeContent>, stamp: &str) -> (res: String)
    requires
        excerpts_fit(scoped@),
    ensures
        exists|l: Seq<(Seq<char>, nat)>| tag_listing(scoped@, l) && res@ == index_text(scoped@, all@, stamp@, l),
{
    let mut index = String::from_str("# Memory Index\n\n");
    index.append("> Auto-generated vault overview. Last updated: ");
    index.append(stamp);
    index.append("\n\n");
    index.append("**");
    push_usize(&mut index, scoped.len());
    index.append(" nodes** in vault\n\n");
    index.append("## Global\n\n");
    push_global_section(&mut index, scoped);
    index.append("## Projects\n\n");
    push_projects_section(&mut index, scoped);
    index.append("## Tags\n\n");
    let lt = list_tags(scoped);
    push_tags_section(&mut index, &lt);
    index.append("## Orphans\n\n");
    index.append("_Nodes with no incoming or outgoing links._\n\n");
    push_orphans_section(&mut index, scoped, all);
    proof {
        let lv = lt.deep_view();
        let l = pairs_view(lv);
        assert forall|a: int, b: int| 0 <= a < b < l.len() implies crate::text::seq_lt(#[trigger] l[a].0, #[trigger] l[b].0) by {
            assert(l[a].0 == lv[a].0);
            assert(l[b].0 == lv[b].0);
        }
        assert forall|t: Seq<char>| #[trigger] has_key(l, t) <==> tagged_paths(scoped@, t).len() > 0 by {
            if has_key(lv, t) {
                let q = choose|q: int| 0 <= q < lv.len() && #[trigger] lv[q].0 == t;
                assert(l[q].0 == t);
            }
            if has_key(l, t) {
                let q = choose|q: int| 0 <= q < l.len() && #[trigger] l[q].0 == t;
                assert(lv[q].0 == t);
            }
        }
        assert(tag_listing(scoped@, l));
        assert(index@ =~= index_text(scoped@, all@, stamp@, l));
    }
    index
}

/// Generate a memory index: the index document stamped with today's date.
pub fn generate_index(scoped: &Vec<NodeContent>, all: &Vec<NodeContent>) -> (res: String)
    requires
        excerpts_fit(scoped@),
    ensures
        exists|secs: u64| res@ == index_for(scoped@, all@, date_text(secs as nat)),
        exists|secs: u64, l: Seq<(Seq<char>, nat)>|
            tag_listing(scoped@, l) && res@ == index_text(scoped@, all@, date_text(secs as nat), l),
{
    let stamp = chrono_timestamp();
    let ghost secs = choose|secs: u64| stamp@ == date_text(secs as nat);
    let res = index_document(scoped, all, stamp.as_str());
    let ghost l = choose|l: Seq<(Seq<char>, nat)>| tag_listing(scoped@, l) && res@ == index_text(scoped@, all@, stamp@, l);
    assert(tag_listing(scoped@, l) && res@ == index_text(scoped@, all@, date_text(secs as nat), l));
    assert(res@ == index_for(scoped@, all@, date_text(secs as nat)));
    res
}

/// The update of the index node for the clock reading `stamp`: the write
/// of the index of the whole vault listing `all` to `INDEX_PATH` (what
/// `index_document(all, all, stamp)` gives), and the message to show.
pub fn update_index_at(all: &Vec<NodeContent>, stamp: &str) -> (res: (NodeWrite, String))
    requires
        excerpts_fit(all@),
    ensures
        res.0.path@ == INDEX_PATH@,
        res.0.content@ == index_for(all@, all@, stamp@),
        res.1@ == "Updated: "@ + INDEX_PATH@,
{
    let content = index_document(all, all, stamp);
    let mut message = String::from_str("Updated: ");
    message.append(INDEX_PATH);
    (NodeWrite { path: String::from_str(INDEX_PATH), content }, message)
}

/// Update the index node: the write of the index of the whole vault listing
/// `all` to `INDEX_PATH`, for the clock's reading, and the message to show.
pub fn update_index(all: &Vec<NodeContent>) -> (res: (NodeWrite, String))
    requires
        excerpts_fit(all@),
    ensures
        res.0.path@ == INDEX_PATH@,
        exists|secs: u64| res.0.content@ == index_for(all@, all@, date_text(secs as nat)),
        res.1@ == "Updated: "@ + INDEX_PATH@,
{
    let stamp = chrono_timestamp();
    update_index_at(all, stamp.as_str())
}

/// Check if index exists: the vault listing holds a readable index node.
pub fn index_exists(all: &Vec<NodeContent>) -> (res: bool)
    ensures
        res == exists|i: int| 0 <= i < all@.len() && #[trigger] all@[i].path@ == INDEX_PATH@ && all@[i].content is Some,
{
    let target = String::from_str(INDEX_PATH);
    let mut i: usize = 0;
    while i < all.len()
        invariant
            i <= all@.len(),
            target@ == INDEX_PATH@,
            forall|k: int| 0 <= k < i ==> !(#[trigger] all@[k].path@ == INDEX_PATH@ && all@[k].content is Some),
        decreases all@.len() - i,
    {
        if all[i].path == target && all[i].content.is_some() {
            return true;
        }
        i += 1;
    }
    false
}

} // verus!
