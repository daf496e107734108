//! Searching the lines of the nodes for a literal text or a regex pattern.
use vstd::prelude::*;

use crate::error::OpenMemError;
use crate::node::NodeContent;
use crate::text::{
    dec, dedup_keep_first, lemma_dedup_keep_first, lemma_insert_pos_found, lines, push_usize,
    seq_lt, sort_by_insertion, split_lines, str_lt, string_of, to_chars, contains_string,
};

verus! {

#[verifier::external_type_specification]
#[verifier::external_body]
pub struct ExRegex(regex::Regex);

/// What `regex::Regex::new` reports for `pattern`: `None` when the pattern
/// compiles, else the text of the error.
pub uninterp spec fn regex_build_error(pattern: Seq<char>) -> Option<Seq<char>>;

/// Whether the regex compiled from `pattern` matches somewhere in `text`.
pub uninterp spec fn regex_is_match(pattern: Seq<char>, text: Seq<char>) -> bool;

/// The characters that have a meaning of their own in a regex.
pub open spec fn is_meta(c: char) -> bool {
    ||| c == '\\' || c == '.' || c == '+' || c == '*' || c == '?' || c == '('
    ||| c == ')' || c == '|' || c == '[' || c == ']' || c == '{' || c == '}'
    ||| c == '^' || c == '$' || c == '#' || c == '&' || c == '-' || c == '~'
}

/// `text` with a backslash put before each meta character: a pattern that
/// matches `text` literally.
pub open spec fn escaped(text: Seq<char>) -> Seq<char>
    decreases text.len(),
{
    if text.len() == 0 {
        Seq::empty()
    } else {
        let r = escaped(text.drop_last());
        if is_meta(text.last()) {
            r.push('\\').push(text.last())
        } else {
            r.push(text.last())
        }
    }
}

/// Escapes the meta characters of `text`.
///
/// Trusted: `regex::escape` (that is `regex_syntax::escape`) pushes a
/// backslash before each character for which `is_meta_character` holds and
/// copies every character, in order.
#[verifier::external_body]
fn escape(text: &str) -> (res: String)
    ensures
        res@ == escaped(text@),
{
    regex::escape(text)
}

/// Compiles a regex.
///
/// Trusted: `regex::Regex::new` either compiles `pattern` or returns an error,
/// whose text is given here; which of the two, and the text, are named by
/// `regex_build_error`, a function of the pattern alone.
#[verifier::external_body]
fn build_regex(pattern: &str) -> (res: Result<regex::Regex, String>)
    ensures
        match res {
            Ok(_) => regex_build_error(pattern@) is None,
            Err(msg) => regex_build_error(pattern@) == Some(msg@),
        },
{
    match regex::Regex::new(pattern) {
        Ok(re) => Ok(re),
        Err(e) => Err(e.to_string()),
    }
}

/// A compiled regex together with the pattern it was compiled from.
/// Only `compile_pattern` builds one.
struct Pattern {
    source: String,
    re: regex::Regex,
}

/// Whether the pattern matches somewhere in `text`.
///
/// Trusted: `regex::Regex::is_match`; `p.re` was compiled from `p.source`,
/// so the answer is `regex_is_match` of that pattern and the text.
#[verifier::external_body]
fn pattern_matches(p: &Pattern, text: &str) -> (res: bool)
    ensures
        res == regex_is_match(p.source@, text@),
{
    p.re.is_match(text)
}

fn compile_pattern(source: String) -> (res: Result<Pattern, String>)
    ensures
        match res {
            Ok(p) => regex_build_error(source@) is None && p.source@ == source@,
            Err(msg) => regex_build_error(source@) == Some(msg@),
        },
{
    match build_regex(source.as_str()) {
        Ok(re) => Ok(Pattern { source, re }),
        Err(msg) => Err(msg),
    }
}

// ---------------------------------------------------------------------
// Results
// ---------------------------------------------------------------------

/// Search result for a single match.
#[derive(Debug, PartialEq)]
pub struct SearchResult {
    /// Node path.
    pub path: String,
    /// Line number (1-indexed).
    pub line: usize,
    /// Matched line content.
    pub content: String,
}

impl DeepView for SearchResult {
    type V = (Seq<char>, int, Seq<char>);

    open spec fn deep_view(&self) -> (Seq<char>, int, Seq<char>) {
        (self.path@, self.line as int, self.content@)
    }
}

impl Clone for SearchResult {
    fn clone(&self) -> (res: Self)
        ensures
            res.deep_view() == self.deep_view(),
    {
        SearchResult { path: self.path.clone(), line: self.line, content: self.content.clone() }
    }
}

/// Search options.
#[derive(Debug, Clone)]
pub struct SearchOptions {
    /// Limit search to nodes under this path prefix.
    pub scope: Option<String>,
    /// Maximum number of results to return.
    pub max_results: usize,
    /// Case-sensitive search.
    pub case_sensitive: bool,
    /// Treat query as regex pattern.
    pub regex: bool,
}

impl Default for SearchOptions {
    fn default() -> (res: Self)
        ensures
            res.scope is None,
            res.max_results == 20,
            !res.case_sensitive,
            !res.regex,
    {
        SearchOptions { scope: None, max_results: 20, case_sensitive: false, regex: false }
    }
}

/// The regex a search uses: the query itself, or the query escaped for a
/// literal search; made case-insensitive with `(?i)` unless asked otherwise.
pub open spec fn search_pattern(query: Seq<char>, case_sensitive: bool, regex: bool) -> Seq<char> {
    let p = if regex {
        query
    } else {
        escaped(query)
    };
    if case_sensitive {
        p
    } else {
        "(?i)"@ + p
    }
}

/// The matches among the lines `ls` of the node `path`, in order: the path,
/// the line number counted from 1, and the line.
pub open spec fn line_hits(path: Seq<char>, ls: Seq<Seq<char>>, pattern: Seq<char>) -> Seq<
    (Seq<char>, int, Seq<char>),
>
    decreases ls.len(),
{
    if ls.len() == 0 {
        Seq::empty()
    } else {
        let r = line_hits(path, ls.drop_last(), pattern);
        if regex_is_match(pattern, ls.last()) {
            r.push((path, ls.len() as int, ls.last()))
        } else {
            r
        }
    }
}

/// The matches in one node; a node that could not be read has none.
pub open spec fn node_hits(e: NodeContent, pattern: Seq<char>) -> Seq<(Seq<char>, int, Seq<char>)> {
    match e.text() {
        Some(c) => line_hits(e.path@, lines(c), pattern),
        None => Seq::empty(),
    }
}

/// All matches in the listing, node after node.
pub open spec fn all_hits(nodes: Seq<NodeContent>, pattern: Seq<char>) -> Seq<
    (Seq<char>, int, Seq<char>),
>
    decreases nodes.len(),
{
    if nodes.len() == 0 {
        Seq::empty()
    } else {
        all_hits(nodes.drop_last(), pattern) + node_hits(nodes.last(), pattern)
    }
}

/// Matches ordered by path, then by line number.
pub open spec fn hit_before() -> spec_fn((Seq<char>, int, Seq<char>), (Seq<char>, int, Seq<char>)) -> bool {
    |a: (Seq<char>, int, Seq<char>), b: (Seq<char>, int, Seq<char>)|
        seq_lt(a.0, b.0) || (a.0 == b.0 && a.1 < b.1)
}

/// The number of matches at which a search stops: `max_results`.
pub open spec fn result_limit(max_results: nat) -> nat {
    max_results
}

/// What a search gives back of the matches `hits` found in listing order: as
/// soon as the limit is reached the matches found so far, as found;
/// otherwise all of them, sorted by path and line.
pub open spec fn ordered_hits(hits: Seq<(Seq<char>, int, Seq<char>)>, max_results: nat) -> Seq<
    (Seq<char>, int, Seq<char>),
> {
    if hits.len() >= result_limit(max_results) {
        hits.take(result_limit(max_results) as int)
    } else {
        sort_by_insertion(hits, hit_before())
    }
}

fn hit_lt(a: &SearchResult, b: &SearchResult) -> (res: bool)
    ensures
        res == hit_before()(a.deep_view(), b.deep_view()),
{
    if str_lt(a.path.as_str(), b.path.as_str()) {
        true
    } else if a.path == b.path {
        a.line < b.line
    } else {
        false
    }
}

/// Stable sort of search results by path, then line.
fn sort_results(v: Vec<SearchResult>) -> (res: Vec<SearchResult>)
    ensures
        res.deep_view() == sort_by_insertion(v.deep_view(), hit_before()),
{
    let mut res: Vec<SearchResult> = Vec::new();
    let mut i: usize = 0;
    let n = v.len();
    assert(v.deep_view().take(0) =~= Seq::<(Seq<char>, int, Seq<char>)>::empty());
    while i < n
        invariant
            n == v@.len(),
            i <= n,
            res.deep_view() == sort_by_insertion(v.deep_view().take(i as int), hit_before()),
        decreases n - i,
    {
        let x = v[i].clone();
        let mut p: usize = 0;
        let mut go = true;
        while go && p < res.len()
            invariant
                p <= res@.len(),
                i < n,
                n == v@.len(),
                x.deep_view() == v.deep_view()[i as int],
                forall|k: int| 0 <= k < p ==> !hit_before()(x.deep_view(), #[trigger] res.deep_view()[k]),
                !go ==> p < res@.len() && hit_before()(x.deep_view(), res.deep_view()[p as int]),
            decreases (res@.len() - p) * 2 + (if go { 1int } else { 0int }),
        {
            assert(res.deep_view()[p as int] == res@[p as int].deep_view());
            if hit_lt(&x, &res[p]) {
                go = false;
            } else {
                p += 1;
            }
        }
        proof {
            lemma_insert_pos_found(res.deep_view(), x.deep_view(), hit_before(), 0, p as int);
            assert(v.deep_view().take(i + 1).drop_last() =~= v.deep_view().take(i as int));
        }
        let ghost old_dv = res.deep_view();
        res.insert(p, x);
        proof {
            assert(res.deep_view() =~= old_dv.insert(p as int, v.deep_view()[i as int]));
        }
        i += 1;
    }
    assert(v.deep_view().take(n as int) =~= v.deep_view());
    res
}

/// Puts the matches of a search, found in listing order, into the order in
/// which the search returns them: cut at the limit if it was reached, else
/// sorted by path, then line.
pub fn order_results(hits: Vec<SearchResult>, max_results: usize) -> (res: Vec<SearchResult>)
    ensures
        res.deep_view() == ordered_hits(hits.deep_view(), max_results as nat),
{
    let limit: usize = max_results;
    if hits.len() >= limit {
        let mut h = hits;
        h.truncate(limit);
        assert(h.deep_view() =~= hits.deep_view().take(limit as int));
        h
    } else {
        sort_results(hits)
    }
}

proof fn lemma_prefix_trans<T>(a: Seq<T>, b: Seq<T>, c: Seq<T>)
    requires
        a.is_prefix_of(b),
        b.is_prefix_of(c),
    ensures
        a.is_prefix_of(c),
{
    assert(a =~= c.subrange(0, a.len() as int));
}

proof fn lemma_line_hits_prefix(path: Seq<char>, ls: Seq<Seq<char>>, pattern: Seq<char>, j: int)
    requires
        0 <= j <= ls.len(),
    ensures
        line_hits(path, ls.take(j), pattern).is_prefix_of(line_hits(path, ls, pattern)),
    decreases ls.len() - j,
{
    if j < ls.len() {
        lemma_line_hits_prefix(path, ls, pattern, j + 1);
        assert(ls.take(j + 1).drop_last() =~= ls.take(j));
        let a = line_hits(path, ls.take(j), pattern);
        let b = line_hits(path, ls.take(j + 1), pattern);
        assert(a.is_prefix_of(b)) by {
            assert(a =~= b.subrange(0, a.len() as int));
        }
        lemma_prefix_trans(a, b, line_hits(path, ls, pattern));
    } else {
        assert(ls.take(j) =~= ls);
        let a = line_hits(path, ls, pattern);
        assert(a =~= a.subrange(0, a.len() as int));
    }
}

proof fn lemma_all_hits_prefix(nodes: Seq<NodeContent>, pattern: Seq<char>, i: int)
    requires
        0 <= i <= nodes.len(),
    ensures
        all_hits(nodes.take(i), pattern).is_prefix_of(all_hits(nodes, pattern)),
    decreases nodes.len() - i,
{
    if i < nodes.len() {
        lemma_all_hits_prefix(nodes, pattern, i + 1);
        assert(nodes.take(i + 1).drop_last() =~= nodes.take(i));
        let a = all_hits(nodes.take(i), pattern);
        let b = all_hits(nodes.take(i + 1), pattern);
        assert(a =~= b.subrange(0, a.len() as int));
        lemma_prefix_trans(a, b, all_hits(nodes, pattern));
    } else {
        assert(nodes.take(i) =~= nodes);
        let a = all_hits(nodes, pattern);
        assert(a =~= a.subrange(0, a.len() as int));
    }
}

/// The matches found before the `j`-th line of the `i`-th node come first
/// among all matches.
proof fn lemma_partial_prefix(nodes: Seq<NodeContent>, pattern: Seq<char>, i: int, c: Seq<char>, j: int)
    requires
        0 <= i < nodes.len(),
        nodes[i].text() == Some(c),
        0 <= j <= lines(c).len(),
    ensures
        (all_hits(nodes.take(i), pattern) + line_hits(nodes[i].path@, lines(c).take(j), pattern)).is_prefix_of(
            all_hits(nodes, pattern),
        ),
{
    let ls = lines(c);
    let path = nodes[i].path@;
    lemma_line_hits_prefix(path, ls, pattern, j);
    lemma_all_hits_prefix(nodes, pattern, i + 1);
    assert(nodes.take(i + 1).drop_last() =~= nodes.take(i));
    assert(nodes.take(i + 1).last() == nodes[i]);
    let a = all_hits(nodes.take(i), pattern);
    let x = line_hits(path, ls.take(j), pattern);
    let y = line_hits(path, ls, pattern);
    assert(all_hits(nodes.take(i + 1), pattern) == a + y);
    assert((a + x).is_prefix_of(a + y)) by {
        assert((a + x) =~= (a + y).subrange(0, (a + x).len() as int));
    }
    lemma_prefix_trans(a + x, a + y, all_hits(nodes, pattern));
}

/// Search the given nodes for a query string or regex.
///
/// `nodes` is the listing of the nodes under `options.scope`, in order, with
/// what reading each gave. Each line of each readable node is tried against
/// the pattern; the search stops once `max_results` matches are found and
/// returns them as found (none for a limit of 0). Otherwise it returns all matches,
/// sorted by path, then by line number. A pattern that does not compile is
/// answered with `VcsError("Invalid pattern: ...")`.
pub fn search(nodes: &Vec<NodeContent>, query: &str, options: SearchOptions) -> (res: Result<
    Vec<SearchResult>,
    OpenMemError,
>)
    ensures
        ({
            let pattern = search_pattern(query@, options.case_sensitive, options.regex);
            match res {
                Ok(found) => regex_build_error(pattern) is None && found.deep_view() == ordered_hits(
                    all_hits(nodes@, pattern),
                    options.max_results as nat,
                ),
                Err(e) => regex_build_error(pattern) matches Some(msg) && e matches OpenMemError::VcsError(
                    m,
                ) && m@ == "Invalid pattern: "@ + msg,
            }
        }),
{
    let source = if options.regex {
        String::from_str(query)
    } else {
        escape(query)
    };
    let full = if options.case_sensitive {
        source
    } else {
        let mut s = String::from_str("(?i)");
        s.append(source.as_str());
        s
    };
    let ghost pattern = full@;
    assert(pattern == search_pattern(query@, options.case_sensitive, options.regex));
    let pat = match compile_pattern(full) {
        Ok(p) => p,
        Err(msg) => {
            let mut m = String::from_str("Invalid pattern: ");
            m.append(msg.as_str());
            return Err(OpenMemError::VcsError(m));
        },
    };
    let limit: usize = options.max_results;
    if limit == 0 {
        let none: Vec<SearchResult> = Vec::new();
        assert(none.deep_view() =~= ordered_hits(all_hits(nodes@, pattern), 0));
        return Ok(none);
    }
    let mut found: Vec<SearchResult> = Vec::new();
    let mut i: usize = 0;
    assert(nodes@.take(0) =~= Seq::<NodeContent>::empty());
    while i < nodes.len()
        invariant
            i <= nodes@.len(),
            pat.source@ == pattern,
            regex_build_error(pattern) is None,
            pattern == search_pattern(query@, options.case_sensitive, options.regex),
            limit == result_limit(options.max_results as nat),
            found.deep_view() == all_hits(nodes@.take(i as int), pattern),
            found@.len() < limit,
        decreases nodes@.len() - i,
    {
        let e = &nodes[i];
        proof {
            assert(nodes@.take(i + 1).drop_last() =~= nodes@.take(i as int));
            assert(nodes@.take(i + 1).last() == *e);
        }
        match &e.content {
            Some(c) => {
                let cs = to_chars(c.as_str());
                let ls = split_lines(&cs);
                let ghost lv = lines(c@);
                assert(ls.deep_view() == lv);
                assert(lv.take(0) =~= Seq::<Seq<char>>::empty());
                let mut j: usize = 0;
                while j < ls.len()
                    invariant
                        i < nodes@.len(),
                        *e == nodes@[i as int],
                        e.content == Some(*c),
                        ls.deep_view() == lv,
                        lv == lines(c@),
                        j <= ls@.len(),
                        pat.source@ == pattern,
                        regex_build_error(pattern) is None,
                        pattern == search_pattern(query@, options.case_sensitive, options.regex),
                        limit == result_limit(options.max_results as nat),
                        found.deep_view() == all_hits(nodes@.take(i as int), pattern) + line_hits(
                            e.path@,
                            lv.take(j as int),
                            pattern,
                        ),
                        found@.len() < limit,
                    decreases ls@.len() - j,
                {
                    assert(ls.deep_view()[j as int] == ls@[j as int]@);
                    let line = string_of(&ls[j], 0, ls[j].len());
                    assert(line@ =~= lv[j as int]);
                    assert(lv.take(j + 1).drop_last() =~= lv.take(j as int));
                    assert(lv.take(j + 1).last() == lv[j as int]);
                    if pattern_matches(&pat, line.as_str()) {
                        let ghost old_dv = found.deep_view();
                        found.push(SearchResult { path: e.path.clone(), line: j + 1, content: line });
                        assert(found.deep_view() =~= old_dv.push((e.path@, j + 1, lv[j as int])));
                        if found.len() >= limit {
                            proof {
                                lemma_partial_prefix(nodes@, pattern, i as int, c@, j + 1);
                            }
                            return Ok(order_results(found, options.max_results));
                        }
                    }
                    j += 1;
                }
                assert(lv.take(ls@.len() as int) =~= lv);
            },
            None => {},
        }
        i += 1;
    }
    assert(nodes@.take(nodes@.len() as int) =~= nodes@);
    Ok(order_results(found, options.max_results))
}

// ---------------------------------------------------------------------
// Display
// ---------------------------------------------------------------------

/// The paths of a list of matches.
pub open spec fn hit_paths(hs: Seq<(Seq<char>, int, Seq<char>)>) -> Seq<Seq<char>> {
    Seq::new(hs.len(), |i: int| hs[i].0)
}

/// One match as displayed: `path:line: content`.
pub open spec fn result_line(h: (Seq<char>, int, Seq<char>)) -> Seq<char> {
    h.0 + ":"@ + dec(h.1 as nat) + ": "@ + h.2 + "\n"@
}

pub open spec fn result_lines(hs: Seq<(Seq<char>, int, Seq<char>)>) -> Seq<char>
    decreases hs.len(),
{
    if hs.len() == 0 {
        Seq::empty()
    } else {
        result_lines(hs.drop_last()) + result_line(hs.last())
    }
}

/// The display of search results: a line per match, then how many matches
/// across how many distinct nodes.
pub open spec fn results_text(hs: Seq<(Seq<char>, int, Seq<char>)>) -> Seq<char> {
    if hs.len() == 0 {
        "No matches found."@
    } else {
        result_lines(hs) + "\n"@ + dec(hs.len()) + " matches across "@ + dec(
            hit_paths(hs).to_set().len(),
        ) + " nodes\n"@
    }
}

/// Format search results for display.
pub fn format_results(results: &[SearchResult]) -> (res: String)
    ensures
        res@ == results_text(results.deep_view()),
{
    if results.len() == 0 {
        return String::from_str("No matches found.");
    }
    let ghost hs = results.deep_view();
    let mut output = String::new();
    let mut seen: Vec<String> = Vec::new();
    let mut i: usize = 0;
    assert(hs.take(0) =~= Seq::<(Seq<char>, int, Seq<char>)>::empty());
    assert(hit_paths(hs).take(0) =~= Seq::<Seq<char>>::empty());
    while i < results.len()
        invariant
            hs == results.deep_view(),
            i <= hs.len(),
            output@ == result_lines(hs.take(i as int)),
            seen.deep_view() == dedup_keep_first(hit_paths(hs).take(i as int)),
        decreases hs.len() - i,
    {
        let r = &results[i];
        assert(hs[i as int] == r.deep_view());
        assert(hs.take(i + 1).drop_last() =~= hs.take(i as int));
        assert(hit_paths(hs).take(i + 1).drop_last() =~= hit_paths(hs).take(i as int));
        assert(hit_paths(hs).take(i + 1).last() == r.path@);
        output.append(r.path.as_str());
        output.append(":");
        push_usize(&mut output, r.line);
        output.append(": ");
        output.append(r.content.as_str());
        output.append("\n");
        if !contains_string(&seen, &r.path) {
            let ghost old_dv = seen.deep_view();
            seen.push(r.path.clone());
            assert(seen.deep_view() =~= old_dv.push(r.path@));
        }
        i += 1;
    }
    assert(hs.take(hs.len() as int) =~= hs);
    assert(hit_paths(hs).take(hs.len() as int) =~= hit_paths(hs));
    proof {
        lemma_dedup_keep_first(hit_paths(hs));
        dedup_keep_first(hit_paths(hs)).unique_seq_to_set();
    }
    output.append("\n");
    push_usize(&mut output, results.len());
    output.append(" matches across ");
    push_usize(&mut output, seen.len());
    output.append(" nodes\n");
    output
}

} // verus!
