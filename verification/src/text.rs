//! Text primitives on character sequences: whitespace, lines, trimming,
//! prefixes, substrings, ordering, sorting and decimal rendering.
use vstd::prelude::*;
use vstd::relations::*;

verus! {

// ---------------------------------------------------------------------
// Characters
// ---------------------------------------------------------------------

/// The Unicode `White_Space` property, which `char::is_whitespace`, `str::trim`
/// and the regex class `\s` all use.
pub open spec fn is_ws(c: char) -> bool {
    ||| c == ' '
    ||| ('\t' <= c && c <= '\r')
    ||| c == '\u{85}'
    ||| c == '\u{a0}'
    ||| c == '\u{1680}'
    ||| ('\u{2000}' <= c && c <= '\u{200a}')
    ||| c == '\u{2028}'
    ||| c == '\u{2029}'
    ||| c == '\u{202f}'
    ||| c == '\u{205f}'
    ||| c == '\u{3000}'
}

pub fn is_whitespace(c: char) -> (res: bool)
    ensures
        res == is_ws(c),
{
    c == ' ' || ('\t' <= c && c <= '\r') || c == '\u{85}' || c == '\u{a0}' || c == '\u{1680}' || (
    '\u{2000}' <= c && c <= '\u{200a}') || c == '\u{2028}' || c == '\u{2029}' || c == '\u{202f}'
        || c == '\u{205f}' || c == '\u{3000}'
}

// ---------------------------------------------------------------------
// Building strings
// ---------------------------------------------------------------------

/// Appends one character to a string.
///
/// Trusted: `String::push` appends the character at the end, as its documentation says.
#[verifier::external_body]
pub fn push_char(s: &mut String, c: char)
    ensures
        final(s)@ == old(s)@.push(c),
{
    s.push(c);
}

/// The characters of a string slice, in order.
pub fn to_chars(s: &str) -> (res: Vec<char>)
    ensures
        res@ == s@,
{
    let mut v: Vec<char> = Vec::new();
    for c in it: s.chars()
        invariant
            v@ == it.seq().take(it.index() as int),
    {
        v.push(c);
    }
    v
}

/// Appends the characters `v[from..to]` to `s`.
pub fn push_range(s: &mut String, v: &Vec<char>, from: usize, to: usize)
    requires
        from <= to <= v@.len(),
    ensures
        final(s)@ == old(s)@ + v@.subrange(from as int, to as int),
{
    let mut i = from;
    while i < to
        invariant
            from <= i <= to <= v@.len(),
            s@ == old(s)@ + v@.subrange(from as int, i as int),
        decreases to - i,
    {
        push_char(s, v[i]);
        assert(v@.subrange(from as int, i + 1) =~= v@.subrange(from as int, i as int).push(v@[i as int]));
        i += 1;
    }
}

/// A string holding the characters `v[from..to]`.
pub fn string_of(v: &Vec<char>, from: usize, to: usize) -> (res: String)
    requires
        from <= to <= v@.len(),
    ensures
        res@ == v@.subrange(from as int, to as int),
{
    let mut s = String::new();
    push_range(&mut s, v, from, to);
    s
}

// ---------------------------------------------------------------------
// Decimal numbers
// ---------------------------------------------------------------------

/// The decimal digit for `d < 10`.
pub open spec fn digit_char(d: nat) -> char {
    if d == 0 {
        '0'
    } else if d == 1 {
        '1'
    } else if d == 2 {
        '2'
    } else if d == 3 {
        '3'
    } else if d == 4 {
        '4'
    } else if d == 5 {
        '5'
    } else if d == 6 {
        '6'
    } else if d == 7 {
        '7'
    } else if d == 8 {
        '8'
    } else {
        '9'
    }
}

/// `n` written in decimal, as `{}` formats an integer.
pub open spec fn dec(n: nat) -> Seq<char>
    decreases n,
{
    if n < 10 {
        seq![digit_char(n)]
    } else {
        dec(n / 10).push(digit_char(n % 10))
    }
}

pub fn digit_char_of(d: u64) -> (res: char)
    requires
        d < 10,
    ensures
        res == digit_char(d as nat),
{
    if d == 0 {
        '0'
    } else if d == 1 {
        '1'
    } else if d == 2 {
        '2'
    } else if d == 3 {
        '3'
    } else if d == 4 {
        '4'
    } else if d == 5 {
        '5'
    } else if d == 6 {
        '6'
    } else if d == 7 {
        '7'
    } else if d == 8 {
        '8'
    } else {
        '9'
    }
}

/// Appends `n` in decimal.
pub fn push_decimal(s: &mut String, n: u64)
    ensures
        final(s)@ == old(s)@ + dec(n as nat),
    decreases n,
{
    if n >= 10 {
        push_decimal(s, n / 10);
    }
    push_char(s, digit_char_of(n % 10));
    assert(n < 10 ==> dec(n as nat) =~= seq![digit_char(n as nat)]);
}

/// Appends `n` in decimal.
pub fn push_usize(s: &mut String, n: usize)
    ensures
        final(s)@ == old(s)@ + dec(n as nat),
{
    push_decimal(s, n as u64);
}

// ---------------------------------------------------------------------
// Lines
// ---------------------------------------------------------------------

/// Drops one trailing carriage return, if there is one.
pub open spec fn strip_cr(l: Seq<char>) -> Seq<char> {
    if l.len() > 0 && l.last() == '\r' {
        l.drop_last()
    } else {
        l
    }
}

/// Position of the first `c` at or after `i`, or the length when there is none.
pub open spec fn find_char_from(s: Seq<char>, c: char, i: int) -> int
    decreases s.len() - i,
{
    if i >= s.len() {
        s.len() as int
    } else if s[i] == c {
        i
    } else {
        find_char_from(s, c, i + 1)
    }
}

/// The lines of a text as `str::lines` gives them: split at each `\n`, a
/// `\r` just before the `\n` dropped, and no empty last line after a final `\n`.
pub open spec fn lines(s: Seq<char>) -> Seq<Seq<char>>
    decreases s.len(),
{
    if s.len() == 0 {
        Seq::empty()
    } else {
        let e = find_char_from(s, '\n', 0);
        proof {
            lemma_find_char_bounds(s, '\n', 0);
        }
        if e >= s.len() {
            seq![s]
        } else {
            seq![strip_cr(s.subrange(0, e))] + lines(s.subrange(e + 1, s.len() as int))
        }
    }
}

pub proof fn lemma_find_char_bounds(s: Seq<char>, c: char, i: int)
    requires
        0 <= i <= s.len(),
    ensures
        i <= find_char_from(s, c, i) <= s.len(),
        find_char_from(s, c, i) < s.len() ==> s[find_char_from(s, c, i)] == c,
        forall|k: int| i <= k < find_char_from(s, c, i) ==> s[k] != c,
    decreases s.len() - i,
{
    if i < s.len() && s[i] != c {
        lemma_find_char_bounds(s, c, i + 1);
    }
}

/// Lines of the text `s` that start at position `i` (`i` is a line start).
pub open spec fn lines_from(s: Seq<char>, i: int) -> Seq<Seq<char>> {
    lines(s.subrange(i, s.len() as int))
}

pub proof fn lemma_find_char_shift(s: Seq<char>, c: char, i: int, k: int)
    requires
        0 <= i <= k <= s.len(),
    ensures
        find_char_from(s.subrange(i, s.len() as int), c, k - i) == find_char_from(s, c, k) - i,
    decreases s.len() - k,
{
    if k < s.len() && s[k] != c {
        lemma_find_char_shift(s, c, i, k + 1);
    }
}

/// Splits a text into its lines.
pub fn split_lines(v: &Vec<char>) -> (res: Vec<Vec<char>>)
    ensures
        res.deep_view() == lines(v@),
{
    let mut res: Vec<Vec<char>> = Vec::new();
    let mut start: usize = 0;
    let n = v.len();
    assert(v@.subrange(0, n as int) =~= v@);
    assert(res.deep_view() + lines_from(v@, 0) =~= lines(v@));
    while start < n
        invariant
            n == v@.len(),
            start <= n,
            res.deep_view() + lines_from(v@, start as int) == lines(v@),
        decreases n - start,
    {
        let ghost rest = v@.subrange(start as int, n as int);
        let mut e = start;
        while e < n && v[e] != '\n'
            invariant
                start <= e <= n,
                n == v@.len(),
                forall|k: int| start <= k < e ==> v@[k] != '\n',
            decreases n - e,
        {
            e += 1;
        }
        proof {
            lemma_find_char_shift(v@, '\n', start as int, start as int);
            assert(find_char_from(v@, '\n', start as int) == e) by {
                lemma_find_char_bounds(v@, '\n', start as int);
                lemma_find_char_from_first(v@, '\n', start as int, e as int);
            }
        }
        let mut line_end = e;
        if line_end > start && e < n && v[line_end - 1] == '\r' {
            line_end = line_end - 1;
        }
        let mut line: Vec<char> = Vec::new();
        let mut k = start;
        while k < line_end
            invariant
                start <= k <= line_end <= e <= n,
                n == v@.len(),
                line@ == v@.subrange(start as int, k as int),
            decreases line_end - k,
        {
            line.push(v[k]);
            assert(v@.subrange(start as int, k + 1) =~= v@.subrange(start as int, k as int).push(v@[k as int]));
            k += 1;
        }
        proof {
            let ghost old_view = res.deep_view();
            if e < n {
                assert(rest.subrange(0, (e - start) as int) =~= v@.subrange(start as int, e as int));
                assert(rest.subrange((e - start) + 1, rest.len() as int) =~= v@.subrange(e + 1, n as int));
                if line_end < e {
                    assert(v@.subrange(start as int, e as int).drop_last() =~= v@.subrange(start as int, line_end as int));
                }
                assert(line@ =~= strip_cr(v@.subrange(start as int, e as int)));
                assert(lines(rest) =~= seq![line@] + lines_from(v@, e + 1));
            } else {
                assert(line@ =~= rest);
                assert(lines(rest) =~= seq![line@]);
            }
        }
        let ghost old_res = res@;
        let ghost old_dv = res.deep_view();
        let ghost line_v = line@;
        assert(line.deep_view() =~= line_v);
        res.push(line);
        proof {
            assert(res@ == old_res.push(line));
            assert(res.deep_view() =~= old_dv.push(line_v));
        }
        if e < n {
            start = e + 1;
        } else {
            start = n;
        }
        proof {
            if start == n {
                assert(lines_from(v@, start as int) =~= Seq::<Seq<char>>::empty()) by {
                    assert(v@.subrange(n as int, n as int).len() == 0);
                }
            }
        }
    }
    proof {
        assert(lines_from(v@, n as int) =~= Seq::<Seq<char>>::empty()) by {
            assert(v@.subrange(n as int, n as int).len() == 0);
        }
        assert(res.deep_view() + Seq::<Seq<char>>::empty() =~= res.deep_view());
    }
    res
}

pub proof fn lemma_find_char_from_first(s: Seq<char>, c: char, i: int, e: int)
    requires
        0 <= i <= e <= s.len(),
        forall|k: int| i <= k < e ==> s[k] != c,
        e == s.len() || s[e] == c,
    ensures
        find_char_from(s, c, i) == e,
    decreases e - i,
{
    if i < e {
        lemma_find_char_from_first(s, c, i + 1, e);
    }
}


// ---------------------------------------------------------------------
// Ordering of texts
// ---------------------------------------------------------------------

/// Strict lexicographic order of texts by code point, which is the order of
/// `String`'s `Ord` (UTF-8 bytes compare in the same order as code points).
pub open spec fn seq_lt(a: Seq<char>, b: Seq<char>) -> bool
    decreases a.len(),
{
    if a.len() == 0 {
        b.len() > 0
    } else if b.len() == 0 {
        false
    } else if a[0] != b[0] {
        (a[0] as int) < (b[0] as int)
    } else {
        seq_lt(a.drop_first(), b.drop_first())
    }
}

pub open spec fn seq_le(a: Seq<char>, b: Seq<char>) -> bool {
    a == b || seq_lt(a, b)
}

pub proof fn lemma_lt_irreflexive(a: Seq<char>)
    ensures
        !seq_lt(a, a),
    decreases a.len(),
{
    if a.len() > 0 {
        lemma_lt_irreflexive(a.drop_first());
    }
}

pub proof fn lemma_lt_transitive(a: Seq<char>, b: Seq<char>, c: Seq<char>)
    requires
        seq_lt(a, b),
        seq_lt(b, c),
    ensures
        seq_lt(a, c),
    decreases a.len(),
{
    if a.len() > 0 && b.len() > 0 && c.len() > 0 {
        if a[0] == b[0] && b[0] == c[0] {
            lemma_lt_transitive(a.drop_first(), b.drop_first(), c.drop_first());
        }
    }
}

pub proof fn lemma_lt_total(a: Seq<char>, b: Seq<char>)
    ensures
        seq_lt(a, b) || seq_lt(b, a) || a == b,
    decreases a.len(),
{
    if a.len() > 0 && b.len() > 0 {
        if a[0] == b[0] {
            lemma_lt_total(a.drop_first(), b.drop_first());
            if a.drop_first() == b.drop_first() {
                assert(a =~= seq![a[0]] + a.drop_first());
                assert(b =~= seq![b[0]] + b.drop_first());
            }
        } else {
        }
    } else if a.len() == 0 && b.len() == 0 {
        assert(a =~= b);
    }
}

pub proof fn lemma_lt_asymmetric(a: Seq<char>, b: Seq<char>)
    requires
        seq_lt(a, b),
    ensures
        !seq_lt(b, a),
        a != b,
    decreases a.len(),
{
    if a.len() > 0 && b.len() > 0 && a[0] == b[0] {
        lemma_lt_asymmetric(a.drop_first(), b.drop_first());
    }
    if a == b {
        lemma_lt_irreflexive(a);
    }
}

/// Compares two texts: `true` exactly when `a` comes strictly before `b`.
pub fn str_lt(a: &str, b: &str) -> (res: bool)
    ensures
        res == seq_lt(a@, b@),
{
    let la = a.unicode_len();
    let lb = b.unicode_len();
    let mut i: usize = 0;
    assert(a@.skip(0) =~= a@);
    assert(b@.skip(0) =~= b@);
    while i < la && i < lb
        invariant
            la == a@.len(),
            lb == b@.len(),
            i <= la,
            i <= lb,
            seq_lt(a@, b@) == seq_lt(a@.skip(i as int), b@.skip(i as int)),
        decreases la - i,
    {
        let ca = a.get_char(i);
        let cb = b.get_char(i);
        if ca != cb {
            return (ca as u32) < (cb as u32);
        }
        assert(a@.skip(i as int).drop_first() =~= a@.skip(i + 1));
        assert(b@.skip(i as int).drop_first() =~= b@.skip(i + 1));
        i += 1;
    }
    la - i == 0 && lb - i > 0
}

// ---------------------------------------------------------------------
// Stable insertion order
// ---------------------------------------------------------------------

/// The first position `j >= i` of `t` before whose element `x` belongs, or the length.
pub open spec fn insert_pos<T>(t: Seq<T>, x: T, before: spec_fn(T, T) -> bool, i: int) -> int
    decreases t.len() - i,
{
    if i >= t.len() {
        t.len() as int
    } else if before(x, t[i]) {
        i
    } else {
        insert_pos(t, x, before, i + 1)
    }
}

/// `x` inserted into `t` just before the first element it must precede:
/// after every element it need not precede, so equal elements keep their order.
pub open spec fn insert_by<T>(t: Seq<T>, x: T, before: spec_fn(T, T) -> bool) -> Seq<T> {
    t.insert(insert_pos(t, x, before, 0), x)
}

/// Stable sort: the elements of `s` put in order one by one, each after all
/// elements it need not precede. With `before` a strict order this is the
/// sorted arrangement in which equal elements keep the order they had.
pub open spec fn sort_by_insertion<T>(s: Seq<T>, before: spec_fn(T, T) -> bool) -> Seq<T>
    decreases s.len(),
{
    if s.len() == 0 {
        Seq::empty()
    } else {
        insert_by(sort_by_insertion(s.drop_last(), before), s.last(), before)
    }
}

pub proof fn lemma_insert_pos_bounds<T>(t: Seq<T>, x: T, before: spec_fn(T, T) -> bool, i: int)
    requires
        0 <= i <= t.len(),
    ensures
        i <= insert_pos(t, x, before, i) <= t.len(),
        forall|k: int| i <= k < insert_pos(t, x, before, i) ==> !before(x, #[trigger] t[k]),
        insert_pos(t, x, before, i) < t.len() ==> before(x, t[insert_pos(t, x, before, i)]),
    decreases t.len() - i,
{
    if i < t.len() && !before(x, t[i]) {
        lemma_insert_pos_bounds(t, x, before, i + 1);
    }
}

pub proof fn lemma_insert_pos_found<T>(t: Seq<T>, x: T, before: spec_fn(T, T) -> bool, i: int, p: int)
    requires
        0 <= i <= p <= t.len(),
        forall|k: int| i <= k < p ==> !before(x, #[trigger] t[k]),
        p == t.len() || before(x, t[p]),
    ensures
        insert_pos(t, x, before, i) == p,
    decreases p - i,
{
    if i < p {
        lemma_insert_pos_found(t, x, before, i + 1, p);
    }
}

pub proof fn lemma_sort_len<T>(s: Seq<T>, before: spec_fn(T, T) -> bool)
    ensures
        sort_by_insertion(s, before).len() == s.len(),
    decreases s.len(),
{
    if s.len() > 0 {
        lemma_sort_len(s.drop_last(), before);
        lemma_insert_pos_bounds(sort_by_insertion(s.drop_last(), before), s.last(), before, 0);
    }
}

/// The order of texts as a "must come before" relation.
pub open spec fn text_before() -> spec_fn(Seq<char>, Seq<char>) -> bool {
    |a: Seq<char>, b: Seq<char>| seq_lt(a, b)
}

/// Inserting an element adds it to the multiset.
pub proof fn lemma_insert_multiset<T>(t: Seq<T>, p: int, x: T)
    requires
        0 <= p <= t.len(),
    ensures
        t.insert(p, x).to_multiset() == t.to_multiset().insert(x),
{
    broadcast use vstd::seq_lib::group_to_multiset_ensures;
    broadcast use vstd::multiset::group_multiset_axioms;

    let u = t.insert(p, x);
    assert(u.remove(p) =~= t);
    assert(u[p] == x);
    assert(u.remove(p).to_multiset() =~= u.to_multiset().remove(x));
    assert(u.to_multiset().contains(x));
    assert(u.to_multiset() =~= u.to_multiset().remove(x).insert(x));
}

/// Sorting by insertion rearranges the elements: it keeps the multiset.
pub proof fn lemma_sort_multiset<T>(s: Seq<T>, before: spec_fn(T, T) -> bool)
    ensures
        sort_by_insertion(s, before).to_multiset() == s.to_multiset(),
    decreases s.len(),
{
    broadcast use vstd::seq_lib::group_to_multiset_ensures;

    if s.len() > 0 {
        let t = sort_by_insertion(s.drop_last(), before);
        lemma_sort_multiset(s.drop_last(), before);
        lemma_sort_len(s.drop_last(), before);
        lemma_insert_pos_bounds(t, s.last(), before, 0);
        lemma_insert_multiset(t, insert_pos(t, s.last(), before, 0), s.last());
        assert(s.drop_last().push(s.last()) =~= s);
    }
}

/// The order of texts as a "comes no later than" relation.
pub open spec fn text_le() -> spec_fn(Seq<char>, Seq<char>) -> bool {
    |a: Seq<char>, b: Seq<char>| seq_le(a, b)
}

/// Sorting texts gives them in ascending order.
pub proof fn lemma_sort_sorted(s: Seq<Seq<char>>)
    ensures
        sorted_by(sort_by_insertion(s, text_before()), text_le()),
    decreases s.len(),
{
    if s.len() > 0 {
        let t = sort_by_insertion(s.drop_last(), text_before());
        let x = s.last();
        lemma_sort_sorted(s.drop_last());
        lemma_sort_len(s.drop_last(), text_before());
        lemma_insert_pos_bounds(t, x, text_before(), 0);
        let p = insert_pos(t, x, text_before(), 0);
        let u = t.insert(p, x);
        assert forall|i: int, j: int| 0 <= i < j < u.len() implies #[trigger] text_le()(u[i], u[j]) by {
            if j < p {
                assert(text_le()(t[i], t[j]));
            } else if j == p {
                assert(!text_before()(x, t[i]));
                lemma_lt_total(x, t[i]);
            } else if i < p {
                assert(text_le()(t[i], t[j - 1]));
            } else if i == p {
                assert(text_before()(x, t[p]));
                if p < j - 1 {
                    assert(text_le()(t[p], t[j - 1]));
                }
                if t[p] != t[j - 1] {
                    lemma_lt_transitive(x, t[p], t[j - 1]);
                }
            } else {
                assert(text_le()(t[i - 1], t[j - 1]));
            }
        }
        assert(sort_by_insertion(s, text_before()) == u);
    }
}

/// `dedup_keep_first` leaves no element twice and keeps the set of elements.
pub proof fn lemma_dedup_keep_first<T>(s: Seq<T>)
    ensures
        dedup_keep_first(s).no_duplicates(),
        dedup_keep_first(s).to_set() == s.to_set(),
    decreases s.len(),
{
    if s.len() > 0 {
        lemma_dedup_keep_first(s.drop_last());
        let r = dedup_keep_first(s.drop_last());
        assert(s.to_set() =~= s.drop_last().to_set().insert(s.last())) by {
            assert forall|x: T| s.to_set().contains(x) <==> s.drop_last().to_set().insert(s.last()).contains(x) by {
                if s.contains(x) {
                    let i = choose|i: int| 0 <= i < s.len() && s[i] == x;
                    if i < s.len() - 1 {
                        assert(s.drop_last()[i] == x);
                    }
                }
                if s.drop_last().contains(x) {
                    let i = choose|i: int| 0 <= i < s.drop_last().len() && s.drop_last()[i] == x;
                    assert(s[i] == x);
                }
                assert(s[s.len() - 1] == s.last());
            }
        }
        if r.contains(s.last()) {
            assert(r.to_set().contains(s.last()));
            assert(s.to_set() =~= r.to_set());
        } else {
            let u = r.push(s.last());
            assert forall|i: int, j: int| 0 <= i < u.len() && 0 <= j < u.len() && i != j implies u[i] != u[j] by {
                if i < r.len() && j < r.len() {
                } else if i == r.len() {
                    assert(u[j] == r[j]);
                } else {
                    assert(u[i] == r[i]);
                }
            }
            assert forall|x: T| u.to_set().contains(x) <==> s.to_set().contains(x) by {
                if u.contains(x) {
                    let i = choose|i: int| 0 <= i < u.len() && u[i] == x;
                    if i < r.len() {
                        assert(r.contains(x));
                    }
                }
                if r.contains(x) {
                    let i = choose|i: int| 0 <= i < r.len() && r[i] == x;
                    assert(u[i] == x);
                }
                assert(u[r.len() as int] == s.last());
            }
            assert(u.to_set() =~= s.to_set());
        }
    }
}

/// Sorting keeps a sequence free of duplicates.
pub proof fn lemma_sort_no_duplicates<T>(s: Seq<T>, before: spec_fn(T, T) -> bool)
    requires
        s.no_duplicates(),
    ensures
        sort_by_insertion(s, before).no_duplicates(),
{
    lemma_sort_multiset(s, before);
    s.lemma_multiset_has_no_duplicates();
    sort_by_insertion(s, before).lemma_multiset_has_no_duplicates_conv();
}

/// Sorting keeps which elements occur.
pub proof fn lemma_sort_contains<T>(s: Seq<T>, before: spec_fn(T, T) -> bool, x: T)
    ensures
        sort_by_insertion(s, before).contains(x) == s.contains(x),
{
    broadcast use vstd::seq_lib::group_to_multiset_ensures;

    lemma_sort_multiset(s, before);
    assert(s.contains(x) <==> s.to_multiset().count(x) > 0);
    assert(sort_by_insertion(s, before).contains(x) <==> sort_by_insertion(s, before).to_multiset().count(x) > 0);
}

/// Sorts texts in ascending order.
pub fn sort_strings(v: Vec<String>) -> (res: Vec<String>)
    ensures
        res.deep_view() == sort_by_insertion(v.deep_view(), text_before()),
{
    let mut res: Vec<String> = Vec::new();
    let mut i: usize = 0;
    let n = v.len();
    assert(v.deep_view().take(0) =~= Seq::<Seq<char>>::empty());
    while i < n
        invariant
            n == v@.len(),
            i <= n,
            res.deep_view() == sort_by_insertion(v.deep_view().take(i as int), text_before()),
        decreases n - i,
    {
        let x = v[i].clone();
        let mut p: usize = 0;
        let mut go = true;
        while go && p < res.len()
            invariant
                p <= res@.len(),
                i < n,
                n == v@.len(),
                x@ == v.deep_view()[i as int],
                forall|k: int| 0 <= k < p ==> !text_before()(x@, #[trigger] res.deep_view()[k]),
                !go ==> p < res@.len() && text_before()(x@, res.deep_view()[p as int]),
            decreases (res@.len() - p) * 2 + (if go { 1int } else { 0int }),
        {
            assert(res.deep_view()[p as int] == res@[p as int]@);
            if str_lt(x.as_str(), res[p].as_str()) {
                go = false;
            } else {
                p += 1;
            }
        }
        proof {
            lemma_insert_pos_found(res.deep_view(), x@, text_before(), 0, p as int);
            assert(v.deep_view().take(i + 1).drop_last() =~= v.deep_view().take(i as int));
        }
        let ghost old_dv = res.deep_view();
        res.insert(p, x);
        proof {
            assert(res.deep_view() =~= old_dv.insert(p as int, v.deep_view()[i as int]));
        }
        i += 1;
    }
    assert(v.deep_view().take(n as int) =~= v.deep_view());
    res
}


// ---------------------------------------------------------------------
// Duplicates
// ---------------------------------------------------------------------

/// `s` without the later copies of any element (first occurrences kept, in order).
pub open spec fn dedup_keep_first<T>(s: Seq<T>) -> Seq<T>
    decreases s.len(),
{
    if s.len() == 0 {
        Seq::empty()
    } else {
        let r = dedup_keep_first(s.drop_last());
        if r.contains(s.last()) {
            r
        } else {
            r.push(s.last())
        }
    }
}

/// `s` with each run of equal neighbours reduced to one element, as `Vec::dedup` does.
pub open spec fn dedup_adjacent<T>(s: Seq<T>) -> Seq<T>
    decreases s.len(),
{
    if s.len() == 0 {
        Seq::empty()
    } else {
        let r = dedup_adjacent(s.drop_last());
        if r.len() > 0 && r.last() == s.last() {
            r
        } else {
            r.push(s.last())
        }
    }
}

/// Whether `v` holds a string equal to `s`.
pub fn contains_string(v: &Vec<String>, s: &String) -> (res: bool)
    ensures
        res == v.deep_view().contains(s@),
{
    let mut i: usize = 0;
    while i < v.len()
        invariant
            i <= v@.len(),
            forall|k: int| 0 <= k < i ==> v.deep_view()[k] != s@,
        decreases v@.len() - i,
    {
        assert(v.deep_view()[i as int] == v@[i as int]@);
        if v[i] == *s {
            assert(v.deep_view()[i as int] == s@);
            return true;
        }
        i += 1;
    }
    false
}

/// The strings of `v` without later repeats, in order of first appearance.
pub fn distinct_strings(v: &Vec<String>) -> (res: Vec<String>)
    ensures
        res.deep_view() == dedup_keep_first(v.deep_view()),
{
    let mut res: Vec<String> = Vec::new();
    let mut j: usize = 0;
    assert(v.deep_view().take(0) =~= Seq::<Seq<char>>::empty());
    while j < v.len()
        invariant
            j <= v@.len(),
            res.deep_view() == dedup_keep_first(v.deep_view().take(j as int)),
        decreases v@.len() - j,
    {
        assert(v.deep_view().take(j + 1).drop_last() =~= v.deep_view().take(j as int));
        assert(v.deep_view().take(j + 1).last() == v@[j as int]@);
        if !contains_string(&res, &v[j]) {
            let ghost old_dv = res.deep_view();
            res.push(v[j].clone());
            assert(res.deep_view() =~= old_dv.push(v@[j as int]@));
        }
        j += 1;
    }
    assert(v.deep_view().take(v@.len() as int) =~= v.deep_view());
    res
}

/// A copy of a list of strings.
pub fn clone_strings(v: &Vec<String>) -> (res: Vec<String>)
    ensures
        res.deep_view() == v.deep_view(),
{
    let mut res: Vec<String> = Vec::new();
    let mut i: usize = 0;
    while i < v.len()
        invariant
            i <= v@.len(),
            res.deep_view() == v.deep_view().take(i as int),
        decreases v@.len() - i,
    {
        let ghost old_dv = res.deep_view();
        res.push(v[i].clone());
        assert(res.deep_view() =~= old_dv.push(v@[i as int]@));
        assert(v.deep_view()[i as int] == v@[i as int]@);
        assert(res.deep_view() =~= v.deep_view().take(i + 1));
        i += 1;
    }
    assert(v.deep_view().take(v@.len() as int) =~= v.deep_view());
    res
}

/// Removes neighbouring duplicates, as `Vec::dedup` does.
pub fn dedup_strings(v: Vec<String>) -> (res: Vec<String>)
    ensures
        res.deep_view() == dedup_adjacent(v.deep_view()),
{
    let mut res: Vec<String> = Vec::new();
    let mut i: usize = 0;
    let n = v.len();
    assert(v.deep_view().take(0) =~= Seq::<Seq<char>>::empty());
    while i < n
        invariant
            n == v@.len(),
            i <= n,
            res.deep_view() == dedup_adjacent(v.deep_view().take(i as int)),
        decreases n - i,
    {
        assert(v.deep_view().take(i + 1).drop_last() =~= v.deep_view().take(i as int));
        assert(v.deep_view()[i as int] == v@[i as int]@);
        let l = res.len();
        if l > 0 && res[l - 1] == v[i] {
            assert(res.deep_view()[l - 1] == res@[l - 1]@);
        } else {
            if l > 0 {
                assert(res.deep_view()[l - 1] == res@[l - 1]@);
            }
            let ghost old_dv = res.deep_view();
            res.push(v[i].clone());
            assert(res.deep_view() =~= old_dv.push(v.deep_view()[i as int]));
        }
        i += 1;
    }
    assert(v.deep_view().take(n as int) =~= v.deep_view());
    res
}

// ---------------------------------------------------------------------
// Substrings
// ---------------------------------------------------------------------

/// `p` occurs in `s` at position `i`.
pub open spec fn occurs_at(s: Seq<char>, p: Seq<char>, i: int) -> bool {
    0 <= i && i + p.len() <= s.len() && s.subrange(i, i + p.len()) == p
}

/// `str::contains` for a text pattern.
pub open spec fn contains_sub(s: Seq<char>, p: Seq<char>) -> bool {
    exists|i: int| occurs_at(s, p, i)
}

/// Whether `p` occurs in `s`.
pub fn find_sub(s: &Vec<char>, p: &Vec<char>) -> (res: bool)
    ensures
        res == contains_sub(s@, p@),
{
    let n = s.len();
    let m = p.len();
    if m > n {
        assert forall|i: int| !occurs_at(s@, p@, i) by {}
        return false;
    }
    let mut i: usize = 0;
    while i <= n - m
        invariant
            n == s@.len(),
            m == p@.len(),
            m <= n,
            i <= n - m + 1,
            forall|j: int| 0 <= j < i ==> !occurs_at(s@, p@, j),
        decreases n - m + 1 - i,
    {
        let mut k: usize = 0;
        while k < m && s[i + k] == p[k]
            invariant
                k <= m,
                i + m <= n,
                n == s@.len(),
                m == p@.len(),
                forall|j: int| 0 <= j < k ==> s@[i + j] == p@[j],
            decreases m - k,
        {
            k += 1;
        }
        if k == m {
            assert(s@.subrange(i as int, i + m) =~= p@);
            assert(occurs_at(s@, p@, i as int));
            return true;
        }
        assert(s@.subrange(i as int, i + m)[k as int] != p@[k as int]);
        i += 1;
    }
    assert forall|j: int| !occurs_at(s@, p@, j) by {
        if 0 <= j && j + m <= n {
            assert(j < i);
        }
    }
    false
}

// ---------------------------------------------------------------------
// Prefixes and trimming
// ---------------------------------------------------------------------

pub open spec fn starts_with(s: Seq<char>, p: Seq<char>) -> bool {
    p.len() <= s.len() && s.subrange(0, p.len() as int) == p
}

/// Number of whitespace characters at the start of `s`.
pub open spec fn leading_ws(s: Seq<char>) -> nat
    decreases s.len(),
{
    if s.len() > 0 && is_ws(s[0]) {
        1 + leading_ws(s.drop_first())
    } else {
        0
    }
}

/// Number of whitespace characters at the end of `s`.
pub open spec fn trailing_ws(s: Seq<char>) -> nat
    decreases s.len(),
{
    if s.len() > 0 && is_ws(s.last()) {
        1 + trailing_ws(s.drop_last())
    } else {
        0
    }
}

/// `str::trim_start`.
pub open spec fn trim_start(s: Seq<char>) -> Seq<char> {
    s.skip(leading_ws(s) as int)
}

/// `str::trim_end`.
pub open spec fn trim_end(s: Seq<char>) -> Seq<char> {
    s.take(s.len() - trailing_ws(s))
}

/// `str::trim`.
pub open spec fn trim(s: Seq<char>) -> Seq<char> {
    trim_end(trim_start(s))
}

pub proof fn lemma_leading_ws(s: Seq<char>)
    ensures
        leading_ws(s) <= s.len(),
        forall|k: int| 0 <= k < leading_ws(s) ==> is_ws(#[trigger] s[k]),
        leading_ws(s) < s.len() ==> !is_ws(s[leading_ws(s) as int]),
    decreases s.len(),
{
    if s.len() > 0 && is_ws(s[0]) {
        lemma_leading_ws(s.drop_first());
        assert forall|k: int| 0 <= k < leading_ws(s) implies is_ws(#[trigger] s[k]) by {
            if k > 0 {
                assert(s[k] == s.drop_first()[k - 1]);
            }
        }
    }
}

pub proof fn lemma_leading_ws_exact(s: Seq<char>, n: int)
    requires
        0 <= n <= s.len(),
        forall|k: int| 0 <= k < n ==> is_ws(#[trigger] s[k]),
        n < s.len() ==> !is_ws(s[n]),
    ensures
        leading_ws(s) == n,
    decreases n,
{
    if n > 0 {
        assert forall|k: int| 0 <= k < n - 1 implies is_ws(#[trigger] s.drop_first()[k]) by {
            assert(s.drop_first()[k] == s[k + 1]);
        }
        if n - 1 < s.drop_first().len() {
            assert(s.drop_first()[n - 1] == s[n]);
        }
        lemma_leading_ws_exact(s.drop_first(), n - 1);
    }
}

pub proof fn lemma_trailing_ws_exact(s: Seq<char>, n: int)
    requires
        0 <= n <= s.len(),
        forall|k: int| s.len() - n <= k < s.len() ==> is_ws(#[trigger] s[k]),
        n < s.len() ==> !is_ws(s[s.len() - n - 1]),
    ensures
        trailing_ws(s) == n,
    decreases n,
{
    if n > 0 {
        let t = s.drop_last();
        assert forall|k: int| t.len() - (n - 1) <= k < t.len() implies is_ws(#[trigger] t[k]) by {
            assert(t[k] == s[k]);
        }
        if n - 1 < t.len() {
            assert(t[t.len() - (n - 1) - 1] == s[s.len() - n - 1]);
        }
        lemma_trailing_ws_exact(t, n - 1);
    }
}

/// Index of the first non-whitespace character of `v[from..to]` (or `to`).
pub fn skip_ws(v: &Vec<char>, from: usize, to: usize) -> (res: usize)
    requires
        from <= to <= v@.len(),
    ensures
        from <= res <= to,
        res - from == leading_ws(v@.subrange(from as int, to as int)),
{
    let mut i = from;
    while i < to && is_whitespace(v[i])
        invariant
            from <= i <= to <= v@.len(),
            forall|k: int| from <= k < i ==> is_ws(#[trigger] v@[k]),
        decreases to - i,
    {
        i += 1;
    }
    proof {
        let s = v@.subrange(from as int, to as int);
        assert forall|k: int| 0 <= k < i - from implies is_ws(#[trigger] s[k]) by {
            assert(s[k] == v@[from + k]);
        }
        lemma_leading_ws_exact(s, i - from);
    }
    i
}

/// Index just past the last non-whitespace character of `v[from..to]` (or `from`).
pub fn skip_ws_back(v: &Vec<char>, from: usize, to: usize) -> (res: usize)
    requires
        from <= to <= v@.len(),
    ensures
        from <= res <= to,
        to - res == trailing_ws(v@.subrange(from as int, to as int)),
{
    let mut i = to;
    while i > from && is_whitespace(v[i - 1])
        invariant
            from <= i <= to <= v@.len(),
            forall|k: int| i <= k < to ==> is_ws(#[trigger] v@[k]),
        decreases i - from,
    {
        i -= 1;
    }
    proof {
        let s = v@.subrange(from as int, to as int);
        assert forall|k: int| s.len() - (to - i) <= k < s.len() implies is_ws(#[trigger] s[k]) by {
            assert(s[k] == v@[from + k]);
        }
        if to - i < s.len() {
            assert(s[s.len() - (to - i) - 1] == v@[i - 1]);
        }
        lemma_trailing_ws_exact(s, to - i);
    }
    i
}

/// The bounds of `v[from..to]` trimmed of whitespace at both ends.
pub fn trim_range(v: &Vec<char>, from: usize, to: usize) -> (res: (usize, usize))
    requires
        from <= to <= v@.len(),
    ensures
        from <= res.0 <= res.1 <= to,
        v@.subrange(res.0 as int, res.1 as int) == trim(v@.subrange(from as int, to as int)),
{
    let a = skip_ws(v, from, to);
    let b = skip_ws_back(v, a, to);
    proof {
        let s = v@.subrange(from as int, to as int);
        assert(trim_start(s) =~= v@.subrange(a as int, to as int));
        assert(trim(s) =~= v@.subrange(a as int, b as int));
    }
    (a, b)
}

/// Whether `v[from..to]` starts with `p`.
pub fn range_starts_with(v: &Vec<char>, from: usize, to: usize, p: &str) -> (res: bool)
    requires
        from <= to <= v@.len(),
    ensures
        res == starts_with(v@.subrange(from as int, to as int), p@),
{
    let pl = p.unicode_len();
    if pl > to - from {
        return false;
    }
    let mut k: usize = 0;
    while k < pl
        invariant
            pl == p@.len(),
            pl <= to - from,
            from <= to <= v@.len(),
            k <= pl,
            forall|j: int| 0 <= j < k ==> v@[from + j] == p@[j],
        decreases pl - k,
    {
        if v[from + k] != p.get_char(k) {
            assert(v@.subrange(from as int, to as int).subrange(0, pl as int)[k as int] != p@[k as int]);
            return false;
        }
        k += 1;
    }
    assert(v@.subrange(from as int, to as int).subrange(0, pl as int) =~= p@);
    true
}

} // verus!
