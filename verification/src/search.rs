use crate::config::Config;
use vstd::prelude::*;
use vstd::string::StrSliceExecFns;
use vstd::utf8::is_ascii_chars;

verus! {

/// The lowercase form of a character sequence, as Unicode lowercasing
/// computes it.  Which sequence that is depends on the argument alone.
pub uninterp spec fn lower_of(s: Seq<char>) -> Seq<char>;

/// ASCII lowercasing of one character: the letters 'A' through 'Z' move to
/// 'a' through 'z'; every other character stays as it is.
pub open spec fn ascii_lower_char(c: char) -> char {
    if 'A' <= c && c <= 'Z' {
        (c as u32 + 32) as char
    } else {
        c
    }
}

/// ASCII lowercasing of a character sequence, one character at a time.
pub open spec fn ascii_lower(s: Seq<char>) -> Seq<char> {
    s.map_values(|c: char| ascii_lower_char(c))
}

/// The index of the first line feed in `s`, or `s.len()` when there is none.
pub open spec fn first_newline(s: Seq<char>) -> int
    decreases s.len(),
{
    if s.len() == 0 {
        0
    } else if s[0] == '\n' {
        0
    } else {
        1 + first_newline(s.subrange(1, s.len() as int))
    }
}

proof fn lemma_first_newline_bounds(s: Seq<char>)
    ensures
        0 <= first_newline(s) <= s.len(),
        first_newline(s) < s.len() ==> s[first_newline(s)] == '\n',
        forall|j: int| 0 <= j < first_newline(s) ==> s[j] != '\n',
    decreases s.len(),
{
    if s.len() == 0 {
    } else if s[0] == '\n' {
    } else {
        let t = s.subrange(1, s.len() as int);
        lemma_first_newline_bounds(t);
        assert forall|j: int| 0 <= j < first_newline(s) implies s[j] != '\n' by {
            if j >= 1 {
                assert(s[j] == t[j - 1]);
            }
        }
    }
}

/// `first_newline` is pinned down by its two defining properties: no line
/// feed strictly before the index, and a line feed (or the end) at it.
proof fn lemma_first_newline_is(s: Seq<char>, i: int)
    requires
        0 <= i <= s.len(),
        forall|j: int| 0 <= j < i ==> s[j] != '\n',
        i < s.len() ==> s[i] == '\n',
    ensures
        first_newline(s) == i,
{
    lemma_first_newline_bounds(s);
}

/// A line with a trailing carriage return removed: when a line ends directly
/// before a line feed, the carriage return belongs to the terminator.
pub open spec fn strip_trailing_cr(l: Seq<char>) -> Seq<char> {
    if l.len() > 0 && l[l.len() - 1] == '\r' {
        l.drop_last()
    } else {
        l
    }
}

/// The lines of `s`: the pieces between line feeds, each with a carriage
/// return directly before its line feed removed.  Text after the last line
/// feed forms a final line; a trailing line feed adds no empty line.
pub open spec fn spec_lines(s: Seq<char>) -> Seq<Seq<char>>
    decreases s.len(),
    via spec_lines_decreases
{
    if s.len() == 0 {
        seq![]
    } else {
        let i = first_newline(s);
        if i == s.len() {
            seq![s]
        } else {
            seq![strip_trailing_cr(s.subrange(0, i))] + spec_lines(
                s.subrange(i + 1, s.len() as int),
            )
        }
    }
}

#[via_fn]
proof fn spec_lines_decreases(s: Seq<char>) {
    lemma_first_newline_bounds(s);
}

/// `needle` occurs as a contiguous run of characters inside `hay`.  An empty
/// needle occurs in every sequence.
pub open spec fn spec_contains(hay: Seq<char>, needle: Seq<char>) -> bool {
    exists|i: int|
        0 <= i && i + needle.len() <= hay.len() && #[trigger] hay.subrange(i, i + needle.len())
            == needle
}

/// What `search` returns, as a sequence of character sequences: the lines of
/// `contents` that contain `query`, in their original order.
pub open spec fn spec_search(query: Seq<char>, contents: Seq<char>) -> Seq<Seq<char>> {
    spec_lines(contents).filter(|l: Seq<char>| spec_contains(l, query))
}

/// What `search_case_insensitive` returns: the lines of `contents` whose
/// lowercase form contains the lowercase form of `query`, in their original
/// order and with their original (non-lowercased) text.
pub open spec fn spec_search_ci(query: Seq<char>, contents: Seq<char>) -> Seq<Seq<char>> {
    spec_lines(contents).filter(|l: Seq<char>| spec_contains(lower_of(l), lower_of(query)))
}

/// The case-insensitive search as it comes out on all-ASCII inputs, where
/// lowercasing is the per-character ASCII mapping and nothing more.
pub open spec fn spec_search_ci_ascii(query: Seq<char>, contents: Seq<char>) -> Seq<Seq<char>> {
    spec_lines(contents).filter(|l: Seq<char>| spec_contains(ascii_lower(l), ascii_lower(query)))
}

/// The characters of `s` collected into a vector, in order.
fn chars_of(s: &str) -> (v: Vec<char>)
    ensures
        v@ == s@,
{
    let n = s.unicode_len();
    let mut v: Vec<char> = Vec::new();
    let mut i: usize = 0;
    while i < n
        invariant
            n == s@.len(),
            i <= n,
            v@ == s@.subrange(0, i as int),
        decreases n - i,
    {
        let c = s.get_char(i);
        v.push(c);
        i = i + 1;
        proof {
            assert(v@ =~= s@.subrange(0, i as int));
        }
    }
    proof {
        assert(v@ =~= s@);
    }
    v
}

/// The character ranges in `rs`, read back as subsequences of `s`.
spec fn views_of_ranges(rs: Seq<(usize, usize)>, s: Seq<char>) -> Seq<Seq<char>> {
    rs.map_values(|p: (usize, usize)| s.subrange(p.0 as int, p.1 as int))
}

/// The line boundaries of `chars`: element `k` is the half-open character
/// range of line `k`, its line terminator excluded.
fn line_ranges(chars: &Vec<char>) -> (r: Vec<(usize, usize)>)
    ensures
        r@.len() == spec_lines(chars@).len(),
        forall|k: int|
            0 <= k < r@.len() ==> #[trigger] r@[k].0 <= r@[k].1 && r@[k].1 <= chars@.len(),
        forall|k: int|
            0 <= k < r@.len() ==> chars@.subrange(#[trigger] r@[k].0 as int, r@[k].1 as int)
                == spec_lines(chars@)[k],
{
    let ghost full = chars@;
    let n = chars.len();
    let mut r: Vec<(usize, usize)> = Vec::new();
    let mut start: usize = 0;
    let mut i: usize = 0;
    proof {
        assert(full.subrange(0, n as int) =~= full);
        assert(views_of_ranges(r@, full) + spec_lines(full) =~= spec_lines(full));
    }
    while i < n
        invariant
            n == full.len(),
            full == chars@,
            start <= i <= n,
            forall|j: int| start <= j < i ==> full[j] != '\n',
            forall|k: int| 0 <= k < r@.len() ==> #[trigger] r@[k].0 <= r@[k].1 && r@[k].1 <= n,
            spec_lines(full) == views_of_ranges(r@, full) + spec_lines(
                full.subrange(start as int, n as int),
            ),
        decreases n - i,
    {
        let c = chars[i];
        if c == '\n' {
            let end = if i > start && chars[i - 1] == '\r' {
                i - 1
            } else {
                i
            };
            proof {
                let tail = full.subrange(start as int, n as int);
                lemma_first_newline_is(tail, i - start);
                assert(tail.subrange(0, i - start) =~= full.subrange(start as int, i as int));
                assert(strip_trailing_cr(full.subrange(start as int, i as int)) =~= full.subrange(
                    start as int,
                    end as int,
                ));
                assert(tail.subrange(i - start + 1, tail.len() as int) =~= full.subrange(
                    i + 1,
                    n as int,
                ));
                assert(views_of_ranges(r@.push((start, end)), full) =~= views_of_ranges(r@, full)
                    + seq![full.subrange(start as int, end as int)]);
                assert(spec_lines(full) == views_of_ranges(r@.push((start, end)), full)
                    + spec_lines(full.subrange(i + 1, n as int)));
            }
            let ghost prev = r@;
            r.push((start, end));
            proof {
                assert forall|k: int|
                    0 <= k < r@.len() implies #[trigger] r@[k].0 <= r@[k].1 && r@[k].1 <= n by {
                    if k < prev.len() {
                        assert(prev[k].0 <= prev[k].1 && prev[k].1 <= n);
                        assert(r@[k] == prev[k]);
                    } else {
                        assert(r@[k] == (start, end));
                    }
                }
            }
            start = i + 1;
        }
        i = i + 1;
    }
    if start < n {
        proof {
            let tail = full.subrange(start as int, n as int);
            lemma_first_newline_is(tail, tail.len() as int);
            assert(spec_lines(tail) == seq![tail]);
            assert(views_of_ranges(r@.push((start, n)), full) =~= views_of_ranges(r@, full)
                + seq![full.subrange(start as int, n as int)]);
        }
        r.push((start, n));
    } else {
        proof {
            assert(full.subrange(start as int, n as int) =~= Seq::<char>::empty());
            assert(spec_lines(Seq::<char>::empty()) == Seq::<Seq<char>>::empty());
            assert(spec_lines(full) =~= views_of_ranges(r@, full));
        }
    }
    proof {
        assert(spec_lines(full) =~= views_of_ranges(r@, full));
    }
    r
}

/// Whether `needle` stands in `hay` beginning exactly at index `a`.
fn matches_at(hay: &Vec<char>, a: usize, needle: &Vec<char>) -> (r: bool)
    requires
        a + needle@.len() <= hay@.len(),
    ensures
        r == (hay@.subrange(a as int, a + needle@.len()) == needle@),
{
    let hay_len = hay.len();
    let m = needle.len();
    let mut j: usize = 0;
    while j < m
        invariant
            hay_len == hay@.len(),
            m == needle@.len(),
            a + m <= hay@.len(),
            j <= m,
            forall|t: int| 0 <= t < j ==> hay@[a + t] == needle@[t],
        decreases m - j,
    {
        if hay[a + j] != needle[j] {
            proof {
                assert(hay@.subrange(a as int, a + m as int)[j as int] == hay@[a + j]);
            }
            return false;
        }
        j = j + 1;
    }
    proof {
        assert(hay@.subrange(a as int, a + m as int) =~= needle@);
    }
    true
}

/// Whether `needle` occurs anywhere inside the slice `hay[a..b]`.
fn contains_range(hay: &Vec<char>, a: usize, b: usize, needle: &Vec<char>) -> (r: bool)
    requires
        a <= b <= hay@.len(),
    ensures
        r == spec_contains(hay@.subrange(a as int, b as int), needle@),
{
    let ghost w = hay@.subrange(a as int, b as int);
    let m = needle.len();
    if m > b - a {
        proof {
            assert(w.len() == b - a);
        }
        return false;
    }
    if m == 0 {
        proof {
            let i: int = 0;
            assert(w.subrange(i, i + needle@.len()) =~= needle@);
            assert(spec_contains(w, needle@));
        }
        return true;
    }
    let last = b - m;
    let mut i: usize = a;
    while i < last
        invariant
            m == needle@.len(),
            a <= b <= hay@.len(),
            0 < m <= b - a,
            last == b - m,
            w == hay@.subrange(a as int, b as int),
            a <= i <= last,
            forall|k: int| 0 <= k < i - a ==> #[trigger] w.subrange(k, k + m as int) != needle@,
        decreases last - i,
    {
        if matches_at(hay, i, needle) {
            proof {
                assert(w.subrange(i - a, i - a + m as int) =~= hay@.subrange(
                    i as int,
                    i + m as int,
                ));
            }
            return true;
        }
        proof {
            assert(w.subrange(i - a, i - a + m as int) =~= hay@.subrange(i as int, i + m as int));
        }
        i = i + 1;
    }
    if matches_at(hay, last, needle) {
        proof {
            assert(w.subrange(last - a, last - a + m as int) =~= hay@.subrange(
                last as int,
                last + m as int,
            ));
        }
        return true;
    }
    proof {
        assert(w.subrange(last - a, last - a + m as int) =~= hay@.subrange(
            last as int,
            last + m as int,
        ));
        assert forall|k: int| 0 <= k && k + needle@.len() <= w.len() implies #[trigger] w.subrange(
            k,
            k + needle@.len(),
        ) != needle@ by {
            assert(k <= last - a);
        }
    }
    false
}

/// `s.subrange(0, k + 1)` filters to `s.subrange(0, k)`'s result, extended by
/// `s[k]` exactly when the predicate accepts it.
proof fn lemma_filter_step(s: Seq<Seq<char>>, pred: spec_fn(Seq<char>) -> bool, k: int)
    requires
        0 <= k < s.len(),
    ensures
        s.subrange(0, k + 1).filter(pred) == if pred(s[k]) {
            s.subrange(0, k).filter(pred).push(s[k])
        } else {
            s.subrange(0, k).filter(pred)
        },
{
    reveal_with_fuel(Seq::<_>::filter, 2);
    let front = s.subrange(0, k + 1);
    assert(front.drop_last() =~= s.subrange(0, k));
    assert(front.last() == s[k]);
}

/// Returns every line of `contents` that contains `query`, in original
/// order, as slices of `contents`.  Containment is exact (case-sensitive)
/// substring containment of character sequences; an empty query matches
/// every line.
pub fn search<'a>(query: &str, contents: &'a str) -> (r: Vec<&'a str>)
    ensures
        r.deep_view() == spec_search(query@, contents@),
{
    let qc = chars_of(query);
    let cc = chars_of(contents);
    let ranges = line_ranges(&cc);
    let ghost lines = spec_lines(contents@);
    let ghost pred = |l: Seq<char>| spec_contains(l, query@);
    let mut r: Vec<&'a str> = Vec::new();
    let n = ranges.len();
    let mut k: usize = 0;
    proof {
        assert(lines.subrange(0, 0).filter(pred) =~= Seq::<Seq<char>>::empty());
        assert(r.deep_view() =~= Seq::<Seq<char>>::empty());
    }
    while k < n
        invariant
            n == ranges@.len(),
            k <= n,
            qc@ == query@,
            cc@ == contents@,
            lines == spec_lines(contents@),
            pred == (|l: Seq<char>| spec_contains(l, query@)),
            n == lines.len(),
            forall|t: int|
                0 <= t < n ==> #[trigger] ranges@[t].0 <= ranges@[t].1 && ranges@[t].1
                    <= contents@.len(),
            forall|t: int|
                0 <= t < n ==> contents@.subrange(#[trigger] ranges@[t].0 as int, ranges@[t].1 as int)
                    == lines[t],
            r.deep_view() == lines.subrange(0, k as int).filter(pred),
        decreases n - k,
    {
        let a = ranges[k].0;
        let b = ranges[k].1;
        proof {
            lemma_filter_step(lines, pred, k as int);
        }
        if contains_range(&cc, a, b, &qc) {
            let line: &'a str = contents.substring_char(a, b);
            let ghost prev = r.deep_view();
            r.push(line);
            proof {
                assert(r.deep_view() =~= prev.push(line@));
            }
        }
        k = k + 1;
    }
    proof {
        assert(lines.subrange(0, n as int) =~= lines);
    }
    r
}

/// Relies on `str::to_lowercase`: its result is a function of the input
/// characters alone, and on an all-ASCII input the Unicode lowercase mapping
/// moves each letter 'A'..='Z' to its ASCII lowercase and leaves every other
/// ASCII character unchanged.
#[verifier::external_body]
fn lowercase(s: &str) -> (r: String)
    ensures
        r@ == lower_of(s@),
        is_ascii_chars(s@) ==> r@ == ascii_lower(s@),
{
    s.to_lowercase()
}

/// Returns every line of `contents` whose lowercase form contains the
/// lowercase form of `query`, in original order; the returned lines keep
/// their original text and case.  On all-ASCII inputs the lowercasing is
/// pinned down completely: it is the per-character ASCII mapping.
pub fn search_case_insensitive<'a>(query: &str, contents: &'a str) -> (r: Vec<&'a str>)
    ensures
        r.deep_view() == spec_search_ci(query@, contents@),
        is_ascii_chars(query@) && is_ascii_chars(contents@) ==> r.deep_view()
            == spec_search_ci_ascii(query@, contents@),
{
    let lq = lowercase(query);
    let lqc = chars_of(lq.as_str());
    let cc = chars_of(contents);
    let ranges = line_ranges(&cc);
    let ghost lines = spec_lines(contents@);
    let ghost pred = |l: Seq<char>| spec_contains(lower_of(l), lower_of(query@));
    let ghost pred_ascii = |l: Seq<char>| spec_contains(ascii_lower(l), ascii_lower(query@));
    let mut r: Vec<&'a str> = Vec::new();
    let n = ranges.len();
    let mut k: usize = 0;
    proof {
        assert(lines.subrange(0, 0).filter(pred) =~= Seq::<Seq<char>>::empty());
        assert(lines.subrange(0, 0).filter(pred_ascii) =~= Seq::<Seq<char>>::empty());
        assert(r.deep_view() =~= Seq::<Seq<char>>::empty());
    }
    while k < n
        invariant
            n == ranges@.len(),
            k <= n,
            cc@ == contents@,
            lq@ == lower_of(query@),
            is_ascii_chars(query@) ==> lq@ == ascii_lower(query@),
            lqc@ == lq@,
            lines == spec_lines(contents@),
            pred == (|l: Seq<char>| spec_contains(lower_of(l), lower_of(query@))),
            pred_ascii == (|l: Seq<char>| spec_contains(ascii_lower(l), ascii_lower(query@))),
            n == lines.len(),
            forall|t: int|
                0 <= t < n ==> #[trigger] ranges@[t].0 <= ranges@[t].1 && ranges@[t].1
                    <= contents@.len(),
            forall|t: int|
                0 <= t < n ==> contents@.subrange(
                    #[trigger] ranges@[t].0 as int,
                    ranges@[t].1 as int,
                ) == lines[t],
            r.deep_view() == lines.subrange(0, k as int).filter(pred),
            is_ascii_chars(query@) && is_ascii_chars(contents@) ==> r.deep_view()
                == lines.subrange(0, k as int).filter(pred_ascii),
        decreases n - k,
    {
        let a = ranges[k].0;
        let b = ranges[k].1;
        let line: &'a str = contents.substring_char(a, b);
        proof {
            lemma_filter_step(lines, pred, k as int);
            lemma_filter_step(lines, pred_ascii, k as int);
            if is_ascii_chars(contents@) {
                assert forall|j: int| 0 <= j < line@.len() implies '\0' <= #[trigger] line@[j]
                    <= '\u{7f}' by {
                    assert(line@[j] == contents@[a + j]);
                }
                assert(is_ascii_chars(line@));
            }
        }
        let ll = lowercase(line);
        let llc = chars_of(ll.as_str());
        let full_len = llc.len();
        if contains_range(&llc, 0, full_len, &lqc) {
            proof {
                assert(llc@.subrange(0, llc@.len() as int) =~= llc@);
            }
            let ghost prev = r.deep_view();
            r.push(line);
            proof {
                assert(r.deep_view() =~= prev.push(line@));
            }
        } else {
            proof {
                assert(llc@.subrange(0, llc@.len() as int) =~= llc@);
            }
        }
        k = k + 1;
    }
    proof {
        assert(lines.subrange(0, n as int) =~= lines);
    }
    r
}

/// Runs the search that `config` selects on `contents`: case-insensitive
/// when `ignore_case` is set, case-sensitive otherwise.
pub fn search_with_config<'a>(config: &Config, contents: &'a str) -> (r: Vec<&'a str>)
    ensures
        config.ignore_case ==> r.deep_view() == spec_search_ci(config.query@, contents@),
        !config.ignore_case ==> r.deep_view() == spec_search(config.query@, contents@),
{
    if config.ignore_case {
        search_case_insensitive(config.query.as_str(), contents)
    } else {
        search(config.query.as_str(), contents)
    }
}

/// Searching in empty contents finds nothing, whatever the query: empty
/// contents have no lines at all.
pub proof fn lemma_search_empty_contents(query: Seq<char>)
    ensures
        spec_search(query, Seq::<char>::empty()) == Seq::<Seq<char>>::empty(),
        spec_search_ci(query, Seq::<char>::empty()) == Seq::<Seq<char>>::empty(),
{
    reveal_with_fuel(Seq::<_>::filter, 2);
    assert(spec_lines(Seq::<char>::empty()) == Seq::<Seq<char>>::empty());
}

/// A filter that accepts every element of a sequence returns the sequence
/// itself.
proof fn lemma_filter_all(s: Seq<Seq<char>>, pred: spec_fn(Seq<char>) -> bool)
    requires
        forall|i: int| 0 <= i < s.len() ==> pred(#[trigger] s[i]),
    ensures
        s.filter(pred) == s,
    decreases s.len(),
{
    reveal_with_fuel(Seq::<_>::filter, 2);
    if s.len() == 0 {
        assert(s.filter(pred) =~= s);
    } else {
        lemma_filter_all(s.drop_last(), pred);
        assert(pred(s.last()));
        assert(s.filter(pred) =~= s);
    }
}

/// An empty query matches every line: the search returns all lines of the
/// contents, unchanged and in order.
pub proof fn lemma_empty_query_matches_all_lines(contents: Seq<char>)
    ensures
        spec_search(Seq::<char>::empty(), contents) == spec_lines(contents),
{
    let q = Seq::<char>::empty();
    let pred = |l: Seq<char>| spec_contains(l, q);
    assert forall|i: int| 0 <= i < spec_lines(contents).len() implies pred(
        #[trigger] spec_lines(contents)[i],
    ) by {
        let l = spec_lines(contents)[i];
        let w: int = 0;
        assert(l.subrange(w, w + q.len()) =~= q);
    }
    lemma_filter_all(spec_lines(contents), pred);
}

/// Mapping a sequence pointwise keeps containment: any occurrence of `q`
/// inside `l` maps to an occurrence of the mapped `q` inside the mapped `l`.
proof fn lemma_ascii_lower_keeps_contains(l: Seq<char>, q: Seq<char>)
    requires
        spec_contains(l, q),
    ensures
        spec_contains(ascii_lower(l), ascii_lower(q)),
{
    let i = choose|i: int|
        0 <= i && i + q.len() <= l.len() && #[trigger] l.subrange(i, i + q.len()) == q;
    assert(ascii_lower(l).subrange(i, i + ascii_lower(q).len()) =~= ascii_lower(q)) by {
        assert forall|j: int| 0 <= j < q.len() implies ascii_lower(l)[i + j] == ascii_lower(q)[j] by {
            assert(l.subrange(i, i + q.len())[j] == l[i + j]);
        }
    }
}

/// Every element that one filter keeps, a pointwise weaker filter keeps too.
proof fn lemma_filter_weaker_keeps<A>(s: Seq<A>, p1: spec_fn(A) -> bool, p2: spec_fn(A) -> bool)
    requires
        forall|x: A| #[trigger] p1(x) ==> p2(x),
    ensures
        forall|k: int|
            0 <= k < s.filter(p1).len() ==> s.filter(p2).contains(#[trigger] s.filter(p1)[k]),
    decreases s.len(),
{
    reveal_with_fuel(Seq::<_>::filter, 2);
    if s.len() == 0 {
    } else {
        let front = s.drop_last();
        lemma_filter_weaker_keeps(front, p1, p2);
        assert forall|k: int|
            0 <= k < s.filter(p1).len() implies s.filter(p2).contains(
            #[trigger] s.filter(p1)[k],
        ) by {
            if k < front.filter(p1).len() {
                let x = front.filter(p1)[k];
                assert(front.filter(p2).contains(x));
                let t = choose|t: int| 0 <= t < front.filter(p2).len() && front.filter(p2)[t] == x;
                assert(s.filter(p2)[t] == x);
            } else {
                assert(s.filter(p1)[k] == s.last());
                assert(p2(s.last()));
                assert(s.filter(p2).last() == s.last());
            }
        }
    }
}

/// Loosening case sensitivity never loses a line: every line that the
/// case-sensitive search finds, the case-insensitive search finds as well.
/// It is stated over the ASCII lowercasing that `search_case_insensitive`
/// is proved to apply whenever query and contents are all ASCII; outside
/// ASCII, Unicode lowercasing is context-sensitive and the inclusion can
/// fail.
pub proof fn lemma_insensitive_finds_sensitive_matches(query: Seq<char>, contents: Seq<char>)
    ensures
        forall|k: int|
            0 <= k < spec_search(query, contents).len() ==> spec_search_ci_ascii(
                query,
                contents,
            ).contains(#[trigger] spec_search(query, contents)[k]),
{
    let p1 = |l: Seq<char>| spec_contains(l, query);
    let p2 = |l: Seq<char>| spec_contains(ascii_lower(l), ascii_lower(query));
    assert forall|x: Seq<char>| #[trigger] p1(x) implies p2(x) by {
        lemma_ascii_lower_keeps_contains(x, query);
    }
    lemma_filter_weaker_keeps(spec_lines(contents), p1, p2);
}

/// Whatever a filter keeps was already in the sequence it filtered.
proof fn lemma_filter_elems_in_seq<A>(s: Seq<A>, pred: spec_fn(A) -> bool)
    ensures
        forall|k: int| 0 <= k < s.filter(pred).len() ==> s.contains(#[trigger] s.filter(pred)[k]),
    decreases s.len(),
{
    reveal_with_fuel(Seq::<_>::filter, 2);
    if s.len() == 0 {
    } else {
        let front = s.drop_last();
        lemma_filter_elems_in_seq(front, pred);
        assert forall|k: int|
            0 <= k < s.filter(pred).len() implies s.contains(#[trigger] s.filter(pred)[k]) by {
            if k < front.filter(pred).len() {
                let x = front.filter(pred)[k];
                assert(front.contains(x));
                let t = choose|t: int| 0 <= t < front.len() && front[t] == x;
                assert(s[t] == x);
            } else {
                assert(s.filter(pred)[k] == s.last());
                assert(s[s.len() - 1] == s.last());
            }
        }
    }
}

/// What comes back is only ever whole lines: neither search returns more
/// elements than the contents have lines, and every returned element is a
/// verbatim line of the contents.
pub proof fn lemma_results_are_lines(query: Seq<char>, contents: Seq<char>)
    ensures
        spec_search(query, contents).len() <= spec_lines(contents).len(),
        forall|k: int|
            0 <= k < spec_search(query, contents).len() ==> spec_lines(contents).contains(
                #[trigger] spec_search(query, contents)[k],
            ),
        spec_search_ci(query, contents).len() <= spec_lines(contents).len(),
        forall|k: int|
            0 <= k < spec_search_ci(query, contents).len() ==> spec_lines(contents).contains(
                #[trigger] spec_search_ci(query, contents)[k],
            ),
{
    let lines = spec_lines(contents);
    lines.lemma_filter_len(|l: Seq<char>| spec_contains(l, query));
    lines.lemma_filter_len(|l: Seq<char>| spec_contains(lower_of(l), lower_of(query)));
    lemma_filter_elems_in_seq(lines, |l: Seq<char>| spec_contains(l, query));
    lemma_filter_elems_in_seq(lines, |l: Seq<char>| spec_contains(lower_of(l), lower_of(query)));
}

/// The searches are pure functions of query and contents: runs on equal
/// inputs return equal line sequences, with no hidden state anywhere.
pub proof fn lemma_search_deterministic(q1: Seq<char>, c1: Seq<char>, q2: Seq<char>, c2: Seq<char>)
    requires
        q1 == q2,
        c1 == c2,
    ensures
        spec_search(q1, c1) == spec_search(q2, c2),
        spec_search_ci(q1, c1) == spec_search_ci(q2, c2),
{
}

} // verus!
