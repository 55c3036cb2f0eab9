//! Laws of the manifest parser, proved over the model in `compiler_depend`.

use vstd::prelude::*;
use crate::compiler_depend::{
    after, continues, dep_text, find, keep, line_break, line_end, lemma_find_bounds, lemma_skip_bounds,
    lemma_trail_bounds, parse, parse_from, parsed_as, records_view, skip_lead, skip_trail,
    step, white, DepInfo, DepInfoView, ParseError, Scan,
};

verus! {

/// Parsing is a function of the text: two parses of the same text give the
/// same records, or the same error.
pub proof fn lemma_parse_deterministic(
    s: Seq<char>,
    r1: Result<Vec<DepInfo>, ParseError>,
    r2: Result<Vec<DepInfo>, ParseError>,
)
    requires
        parsed_as(s, r1),
        parsed_as(s, r2),
    ensures
        r1 is Ok <==> r2 is Ok,
        r1 is Ok ==> records_view(r1->Ok_0@) == records_view(r2->Ok_0@),
        r1 is Err ==> r1->Err_0 == r2->Err_0,
{
}

/// A dependency as it is emitted: not empty, with no white space at either
/// end, and holding no backslash.
pub open spec fn clean_dep(t: Seq<char>) -> bool {
    &&& t.len() > 0
    &&& !white(t[0])
    &&& !white(t[t.len() - 1])
    &&& !t.contains('\\')
}

/// Every dependency of the list is clean.
pub open spec fn clean_deps(d: Seq<Seq<char>>) -> bool {
    forall|j: int| 0 <= j < d.len() ==> clean_dep(#[trigger] d[j])
}

/// Every dependency of every record is clean.
pub open spec fn clean_records(r: Seq<DepInfoView>) -> bool {
    forall|k: int| 0 <= k < r.len() ==> clean_deps(#[trigger] r[k].deps)
}

/// Every backslash of `s` is the last character of its line but for white
/// space: backslashes serve as continuation markers only.
pub open spec fn markers_end_lines(s: Seq<char>) -> bool {
    forall|k: int, m: int|
        0 <= k < m < s.len() && #[trigger] s[k] == '\\' && find(s, '\n', k, s.len() as int) > m
            ==> white(#[trigger] s[m])
}

/// Within `s[lo..hi]`, only white space follows a backslash.
pub open spec fn markers_end_range(s: Seq<char>, lo: int, hi: int) -> bool {
    forall|k: int, m: int|
        lo <= k < m < hi && #[trigger] s[k] == '\\' ==> white(#[trigger] s[m])
}

proof fn lemma_find_skip(s: Seq<char>, c: char, i: int, j: int, hi: int)
    requires
        i <= j <= hi,
        forall|m: int| i <= m < j ==> s[m] != c,
    ensures
        find(s, c, i, hi) == find(s, c, j, hi),
    decreases j - i,
{
    if i < j {
        lemma_find_skip(s, c, i + 1, j, hi);
    }
}

proof fn lemma_dep_text_clean(s: Seq<char>, lo: int, hi: int)
    requires
        0 <= lo <= hi <= s.len(),
        markers_end_range(s, lo, hi),
    ensures
        dep_text(s, lo, hi).len() > 0 ==> clean_dep(dep_text(s, lo, hi)),
{
    lemma_skip_bounds(s, lo, hi);
    let a = skip_lead(s, lo, hi);
    let b = skip_trail(s, a, hi);
    lemma_trail_bounds(s, a, hi);
    assert(!white('\\'));
    if continues(s, lo, hi) {
        lemma_skip_bounds(s, a, b - 1);
        lemma_trail_bounds(s, skip_lead(s, a, b - 1), b - 1);
        let ta = skip_lead(s, a, b - 1);
        let tb = skip_trail(s, ta, b - 1);
        let t = s.subrange(ta, tb);
        if t.contains('\\') {
            let x = choose|x: int| 0 <= x < t.len() && t[x] == '\\';
            assert(s[ta + x] == '\\');
            assert(white(s[b - 1]));
        }
    } else {
        let t = s.subrange(a, b);
        if t.contains('\\') {
            let x = choose|x: int| 0 <= x < t.len() && t[x] == '\\';
            assert(s[a + x] == '\\');
            if a + x < b - 1 {
                assert(white(s[b - 1]));
            }
        }
    }
}

proof fn lemma_keep_clean(d: Seq<Seq<char>>, s: Seq<char>, lo: int, hi: int)
    requires
        0 <= lo <= hi <= s.len(),
        markers_end_range(s, lo, hi),
        clean_deps(d),
    ensures
        clean_deps(d + keep(dep_text(s, lo, hi))),
{
    lemma_dep_text_clean(s, lo, hi);
    let e = d + keep(dep_text(s, lo, hi));
    assert forall|j: int| 0 <= j < e.len() implies clean_dep(#[trigger] e[j]) by {
        if j >= d.len() {
            assert(e[j] == dep_text(s, lo, hi));
        }
    }
}

proof fn lemma_step_clean(s: Seq<char>, a: int, e: int, st: Scan)
    requires
        0 <= a <= e <= s.len(),
        markers_end_range(s, a, e),
        st is Open ==> clean_deps(st->Open_0.deps),
    ensures
        step(s, a, e, st) is Ok ==> {
            let (next, done) = step(s, a, e, st)->Ok_0;
            &&& next is Open ==> clean_deps(next->Open_0.deps)
            &&& clean_records(done)
        },
{
    match st {
        Scan::Idle => {
            if !(a == e || s[a] == '#') {
                lemma_find_bounds(s, ':', a, e);
                let c = find(s, ':', a, e);
                if c < e {
                    lemma_keep_clean(Seq::empty(), s, c + 1, e);
                    assert(Seq::<Seq<char>>::empty() + keep(dep_text(s, c + 1, e)) =~= keep(
                        dep_text(s, c + 1, e),
                    ));
                }
            }
        },
        Scan::Open(rec) => {
            lemma_keep_clean(rec.deps, s, a, e);
        },
    }
}

proof fn lemma_parse_from_clean(s: Seq<char>, start: int, st: Scan)
    requires
        0 <= start,
        markers_end_lines(s),
        st is Open ==> clean_deps(st->Open_0.deps),
    ensures
        parse_from(s, start, st) is Ok ==> clean_records(parse_from(s, start, st)->Ok_0),
    decreases s.len() + 1 - start,
{
    if start < s.len() {
        lemma_find_bounds(s, '\n', start, s.len() as int);
        let nl = line_break(s, start);
        let e = line_end(s, start);
        assert forall|k: int, m: int| start <= k < m < e && #[trigger] s[k] == '\\' implies white(
            #[trigger] s[m],
        ) by {
            lemma_find_skip(s, '\n', start, k, s.len() as int);
        }
        lemma_step_clean(s, start, e, st);
        if step(s, start, e, st) is Ok {
            let (next, done) = step(s, start, e, st)->Ok_0;
            lemma_parse_from_clean(s, nl + 1, next);
            let rest = parse_from(s, nl + 1, next);
            if rest is Ok {
                let all = done + rest->Ok_0;
                assert forall|k: int| 0 <= k < all.len() implies clean_deps(
                    #[trigger] all[k].deps,
                ) by {
                    if k < done.len() {
                        assert(all[k] == done[k]);
                    } else {
                        assert(all[k] == rest->Ok_0[k - done.len()]);
                    }
                }
            }
        }
    }
}

/// Every dependency that a parse emits is non-empty and has no white space
/// at either end; where backslashes serve only as continuation markers, no
/// dependency holds one: the marker is never part of a dependency.
pub proof fn lemma_deps_are_clean(s: Seq<char>)
    requires
        markers_end_lines(s),
    ensures
        parse(s) is Ok ==> clean_records(parse(s)->Ok_0),
{
    lemma_parse_from_clean(s, 0, Scan::Idle);
}

/// The text of the line that starts at `start`, without its line ending.
pub open spec fn line_at(s: Seq<char>, start: int) -> Seq<char> {
    s.subrange(start, line_end(s, start))
}

proof fn lemma_line_bounds(s: Seq<char>, start: int)
    requires
        0 <= start < s.len(),
    ensures
        start <= line_end(s, start) <= line_break(s, start) <= s.len(),
        line_break(s, start) < s.len() ==> s[line_break(s, start)] == '\n',
{
    lemma_find_bounds(s, '\n', start, s.len() as int);
}

proof fn lemma_found(s: Seq<char>, c: char, lo: int, hi: int, k: int)
    requires
        lo <= k < hi,
        s[k] == c,
    ensures
        find(s, c, lo, hi) <= k,
{
    lemma_find_bounds(s, c, lo, hi);
}

/// A colon on a line that continues an open rule is an error, and so is a
/// second colon on a line that starts a rule: reading stops there with
/// `UnexpectedColon`.
pub proof fn lemma_colon_fails(s: Seq<char>, start: int, st: Scan, i: int, j: int)
    requires
        0 <= start < s.len(),
        0 <= j < line_at(s, start).len(),
        line_at(s, start)[j] == ':',
        st is Idle ==> 0 <= i < j && line_at(s, start)[i] == ':' && line_at(s, start)[0] != '#',
    ensures
        parse_from(s, start, st) == Err::<Seq<DepInfoView>, ParseError>(
            ParseError::UnexpectedColon,
        ),
{
    lemma_line_bounds(s, start);
    let e = line_end(s, start);
    assert(s[start + j] == ':');
    lemma_found(s, ':', start, e, start + j);
    if st is Idle {
        assert(s[start + i] == ':');
        lemma_found(s, ':', start, e, start + i);
        let c = find(s, ':', start, e);
        lemma_find_bounds(s, ':', start, e);
        if c < start + i {
            lemma_found(s, ':', c + 1, e, start + i);
        } else {
            lemma_found(s, ':', c + 1, e, start + j);
        }
    }
}

/// A line outside any rule that is not blank, not a comment and holds no
/// colon stops reading with `UnrecognizedLine`.
pub proof fn lemma_unrecognized_line(s: Seq<char>, start: int)
    requires
        0 <= start < s.len(),
        line_at(s, start).len() > 0,
        line_at(s, start)[0] != '#',
        !line_at(s, start).contains(':'),
    ensures
        parse_from(s, start, Scan::Idle) == Err::<Seq<DepInfoView>, ParseError>(
            ParseError::UnrecognizedLine,
        ),
{
    lemma_line_bounds(s, start);
    let e = line_end(s, start);
    lemma_find_bounds(s, ':', start, e);
    let c = find(s, ':', start, e);
    if c < e {
        assert(line_at(s, start)[c - start] == ':');
    }
}

/// A text whose last line leaves a rule continued fails with
/// `UnexpectedEOF`: the line continues an open rule and holds no colon, or
/// it starts a rule with one colon and ends with the continuation marker.
pub proof fn lemma_open_at_end(s: Seq<char>, start: int, st: Scan)
    requires
        0 <= start < s.len(),
        line_break(s, start) + 1 >= s.len(),
        !line_at(s, start).contains(':') || st is Idle,
        st is Open ==> continues(s, start, line_end(s, start)),
        st is Idle ==> {
            let e = line_end(s, start);
            let c = find(s, ':', start, e);
            &&& line_at(s, start).len() > 0
            &&& line_at(s, start)[0] != '#'
            &&& c < e
            &&& find(s, ':', c + 1, e) == e
            &&& continues(s, c + 1, e)
        },
    ensures
        parse_from(s, start, st) == Err::<Seq<DepInfoView>, ParseError>(
            ParseError::UnexpectedEOF,
        ),
{
    lemma_line_bounds(s, start);
    let e = line_end(s, start);
    lemma_find_bounds(s, ':', start, e);
    if st is Open {
        let c = find(s, ':', start, e);
        if c < e {
            assert(line_at(s, start)[c - start] == ':');
        }
    }
    let next = line_break(s, start) + 1;
    assert(parse_from(s, next, step(s, start, e, st)->Ok_0.0) == Err::<Seq<DepInfoView>, ParseError>(
        ParseError::UnexpectedEOF,
    ));
}

proof fn lemma_find_agree(s1: Seq<char>, s2: Seq<char>, m: int, c: char, i: int, hi: int)
    requires
        hi <= m <= s1.len(),
        m <= s2.len(),
        0 <= i,
        forall|k: int| 0 <= k < m ==> s1[k] == s2[k],
    ensures
        find(s1, c, i, hi) == find(s2, c, i, hi),
    decreases hi - i,
{
    if i < hi {
        lemma_find_agree(s1, s2, m, c, i + 1, hi);
    }
}

proof fn lemma_lead_agree(s1: Seq<char>, s2: Seq<char>, m: int, i: int, hi: int)
    requires
        hi <= m <= s1.len(),
        m <= s2.len(),
        0 <= i,
        forall|k: int| 0 <= k < m ==> s1[k] == s2[k],
    ensures
        skip_lead(s1, i, hi) == skip_lead(s2, i, hi),
    decreases hi - i,
{
    if i < hi {
        lemma_lead_agree(s1, s2, m, i + 1, hi);
    }
}

proof fn lemma_trail_agree(s1: Seq<char>, s2: Seq<char>, m: int, lo: int, j: int)
    requires
        j <= m <= s1.len(),
        m <= s2.len(),
        0 <= lo,
        forall|k: int| 0 <= k < m ==> s1[k] == s2[k],
    ensures
        skip_trail(s1, lo, j) == skip_trail(s2, lo, j),
    decreases j - lo,
{
    if lo < j {
        lemma_trail_agree(s1, s2, m, lo, j - 1);
    }
}

proof fn lemma_text_agree(s1: Seq<char>, s2: Seq<char>, m: int, lo: int, hi: int)
    requires
        0 <= lo <= hi <= m <= s1.len(),
        m <= s2.len(),
        forall|k: int| 0 <= k < m ==> s1[k] == s2[k],
    ensures
        continues(s1, lo, hi) == continues(s2, lo, hi),
        dep_text(s1, lo, hi) == dep_text(s2, lo, hi),
{
    lemma_lead_agree(s1, s2, m, lo, hi);
    lemma_skip_bounds(s1, lo, hi);
    let a = skip_lead(s1, lo, hi);
    lemma_trail_agree(s1, s2, m, a, hi);
    let b = skip_trail(s1, a, hi);
    if a < b {
        lemma_lead_agree(s1, s2, m, a, b - 1);
        lemma_skip_bounds(s1, a, b - 1);
        let ta = skip_lead(s1, a, b - 1);
        lemma_trail_agree(s1, s2, m, ta, b - 1);
        let tb = skip_trail(s1, ta, b - 1);
        assert(s1.subrange(ta, tb) =~= s2.subrange(ta, tb));
    }
    assert(s1.subrange(a, b) =~= s2.subrange(a, b));
}

proof fn lemma_step_agree(s1: Seq<char>, s2: Seq<char>, m: int, a: int, e: int, st: Scan)
    requires
        0 <= a <= e <= m <= s1.len(),
        m <= s2.len(),
        forall|k: int| 0 <= k < m ==> s1[k] == s2[k],
    ensures
        step(s1, a, e, st) == step(s2, a, e, st),
{
    lemma_find_agree(s1, s2, m, ':', a, e);
    lemma_find_bounds(s1, ':', a, e);
    let c = find(s1, ':', a, e);
    if c < e {
        lemma_find_agree(s1, s2, m, ':', c + 1, e);
        lemma_text_agree(s1, s2, m, c + 1, e);
        assert(s1.subrange(a, c) =~= s2.subrange(a, c));
    }
    lemma_text_agree(s1, s2, m, a, e);
}

proof fn lemma_newline_in_prefix(p: Seq<char>, t: Seq<char>, i: int)
    requires
        0 <= i < p.len(),
        p[p.len() - 1] == '\n',
    ensures
        find(p + t, '\n', i, (p + t).len() as int) == find(p, '\n', i, p.len() as int),
        find(p, '\n', i, p.len() as int) < p.len(),
    decreases p.len() - i,
{
    if p[i] != '\n' {
        lemma_newline_in_prefix(p, t, i + 1);
    }
}

/// Records already read come first: `after` regroups.
proof fn lemma_after_after(
    a: Seq<DepInfoView>,
    b: Seq<DepInfoView>,
    x: Result<Seq<DepInfoView>, ParseError>,
)
    ensures
        after(a, after(b, x)) == after(a + b, x),
{
    if x is Ok {
        assert(a + (b + x->Ok_0) =~= (a + b) + x->Ok_0);
    }
}

proof fn lemma_parse_prefix_from(p: Seq<char>, t: Seq<char>, start: int, st: Scan)
    requires
        p.len() > 0 ==> p[p.len() - 1] == '\n',
        0 <= start <= p.len(),
        parse_from(p, start, st) is Ok,
    ensures
        parse_from(p + t, start, st) == after(
            parse_from(p, start, st)->Ok_0,
            parse_from(p + t, p.len() as int, Scan::Idle),
        ),
    decreases p.len() - start,
{
    let s = p + t;
    if start == p.len() {
        let x = parse_from(s, start, st);
        if x is Ok {
            assert(Seq::<DepInfoView>::empty() + x->Ok_0 =~= x->Ok_0);
        }
    } else {
        lemma_newline_in_prefix(p, t, start);
        lemma_find_bounds(p, '\n', start, p.len() as int);
        let e = line_end(p, start);
        assert(line_break(s, start) == line_break(p, start));
        assert(line_end(s, start) == e);
        assert forall|k: int| 0 <= k < p.len() implies p[k] == s[k] by {}
        lemma_step_agree(p, s, p.len() as int, start, e, st);
        let (next, done) = step(p, start, e, st)->Ok_0;
        let nxt = line_break(p, start) + 1;
        lemma_parse_prefix_from(p, t, nxt, next);
        lemma_after_after(
            done,
            parse_from(p, nxt, next)->Ok_0,
            parse_from(s, p.len() as int, Scan::Idle),
        );
    }
}

/// A manifest read line by line: the records of a prefix made of whole
/// lines that parses come first, and the rest is read from there with no
/// rule open.
pub proof fn lemma_parse_prefix(p: Seq<char>, t: Seq<char>)
    requires
        p.len() > 0 ==> p[p.len() - 1] == '\n',
        parse(p) is Ok,
    ensures
        parse(p + t) == after(parse(p)->Ok_0, parse_from(p + t, p.len() as int, Scan::Idle)),
{
    lemma_parse_prefix_from(p, t, 0, Scan::Idle);
}

/// The line after a prefix of whole lines is `l` when `l` holds no line
/// ending and the text after it is empty or starts a new line.
proof fn lemma_next_line(p: Seq<char>, l: Seq<char>, t: Seq<char>)
    requires
        l.len() > 0,
        !l.contains('\n'),
        !l.contains('\r'),
        t.len() == 0 || t[0] == '\n',
    ensures
        line_at(p + l + t, p.len() as int) == l,
        line_break(p + l + t, p.len() as int) == p.len() + l.len(),
{
    let s = p + l + t;
    let start = p.len() as int;
    let stop = start + l.len();
    lemma_find_bounds(s, '\n', start, s.len() as int);
    let nl = line_break(s, start);
    if nl < stop {
        assert(l[nl - start] == '\n');
    }
    if nl > stop {
        assert(s[stop] == t[0]);
    }
    if stop < s.len() && stop > start {
        assert(s[stop - 1] == l[l.len() - 1]);
    }
    assert(line_at(s, start) =~= l);
}

/// After a prefix of whole lines that parses, a line that is not blank, not
/// a comment and holds no colon makes the whole manifest fail with
/// `UnrecognizedLine`, whatever follows it.
pub proof fn lemma_unrecognized_line_in_text(p: Seq<char>, l: Seq<char>, t: Seq<char>)
    requires
        p.len() > 0 ==> p[p.len() - 1] == '\n',
        parse(p) is Ok,
        l.len() > 0,
        l[0] != '#',
        !l.contains(':'),
        !l.contains('\n'),
        !l.contains('\r'),
        t.len() == 0 || t[0] == '\n',
    ensures
        parse(p + l + t) == Err::<Seq<DepInfoView>, ParseError>(ParseError::UnrecognizedLine),
{
    assert(p + l + t =~= p + (l + t));
    lemma_parse_prefix(p, l + t);
    lemma_next_line(p, l, t);
    lemma_unrecognized_line(p + l + t, p.len() as int);
}

/// After a prefix of whole lines that parses, a rule line with a second
/// colon (at `j`, after the first at `i`) makes the whole manifest fail with
/// `UnexpectedColon`, whatever follows it.
pub proof fn lemma_second_colon_in_text(p: Seq<char>, l: Seq<char>, t: Seq<char>, i: int, j: int)
    requires
        p.len() > 0 ==> p[p.len() - 1] == '\n',
        parse(p) is Ok,
        0 <= i < j < l.len(),
        l[i] == ':',
        l[j] == ':',
        l[0] != '#',
        !l.contains('\n'),
        !l.contains('\r'),
        t.len() == 0 || t[0] == '\n',
    ensures
        parse(p + l + t) == Err::<Seq<DepInfoView>, ParseError>(ParseError::UnexpectedColon),
{
    assert(p + l + t =~= p + (l + t));
    lemma_parse_prefix(p, l + t);
    lemma_next_line(p, l, t);
    lemma_colon_fails(p + l + t, p.len() as int, Scan::Idle, i, j);
}

/// From the line at `start` on, every line holds no colon and ends with the
/// continuation marker.
pub open spec fn marked_tail(s: Seq<char>, start: int) -> bool
    decreases s.len() + 1 - start,
    via marked_tail_decreases
{
    if start < 0 || start >= s.len() {
        true
    } else {
        let e = line_end(s, start);
        &&& start < e
        &&& s[e - 1] == '\\'
        &&& find(s, ':', start, e) == e
        &&& marked_tail(s, line_break(s, start) + 1)
    }
}

#[via_fn]
proof fn marked_tail_decreases(s: Seq<char>, start: int) {
    if 0 <= start < s.len() {
        lemma_find_bounds(s, '\n', start, s.len() as int);
    }
}

/// Text that ends with the marker, after white space is trimmed, continues.
proof fn lemma_marker_continues(s: Seq<char>, lo: int, hi: int)
    requires
        0 <= lo < hi <= s.len(),
        s[hi - 1] == '\\',
    ensures
        continues(s, lo, hi),
{
    lemma_skip_bounds(s, lo, hi);
    assert(!white('\\'));
    if skip_lead(s, lo, hi) == hi {
        assert(white(s[hi - 1]));
    }
    assert(skip_trail(s, skip_lead(s, lo, hi), hi) == hi);
}

proof fn lemma_open_tail(s: Seq<char>, start: int, rec: DepInfoView)
    requires
        0 <= start,
        marked_tail(s, start),
    ensures
        parse_from(s, start, Scan::Open(rec)) == Err::<Seq<DepInfoView>, ParseError>(
            ParseError::UnexpectedEOF,
        ),
    decreases s.len() + 1 - start,
{
    if start < s.len() {
        lemma_line_bounds(s, start);
        let e = line_end(s, start);
        lemma_marker_continues(s, start, e);
        let (next, done) = step(s, start, e, Scan::Open(rec))->Ok_0;
        lemma_open_tail(s, line_break(s, start) + 1, next->Open_0);
    }
}

/// After a prefix of whole lines that parses, a rule line `h` with one colon
/// that ends with the continuation marker, followed only by lines that hold
/// no colon and end with the marker, makes the manifest fail with
/// `UnexpectedEOF`.
#[verifier::rlimit(40)]
pub proof fn lemma_open_rule_in_text(p: Seq<char>, h: Seq<char>, t: Seq<char>, c: int)
    requires
        p.len() > 0 ==> p[p.len() - 1] == '\n',
        parse(p) is Ok,
        0 <= c < h.len(),
        h[c] == ':',
        forall|k: int| 0 <= k < h.len() && k != c ==> h[k] != ':',
        h[0] != '#',
        h[h.len() - 1] == '\\',
        !h.contains('\n'),
        !h.contains('\r'),
        t.len() == 0 || t[0] == '\n',
        marked_tail(p + h + t, (p.len() + h.len() + 1) as int),
    ensures
        parse(p + h + t) == Err::<Seq<DepInfoView>, ParseError>(ParseError::UnexpectedEOF),
{
    let s = p + h + t;
    let a = p.len() as int;
    let e = a + h.len();
    assert(s =~= p + (h + t));
    lemma_parse_prefix(p, h + t);
    lemma_next_line(p, h, t);
    assert(line_end(s, a) == e) by {
        lemma_line_bounds(s, a);
        assert(line_at(s, a).len() == h.len());
    }
    lemma_find_bounds(s, ':', a, e);
    assert(s[a + c] == ':');
    lemma_found(s, ':', a, e, a + c);
    if find(s, ':', a, e) < a + c {
        assert(h[find(s, ':', a, e) - a] == ':');
    }
    lemma_find_bounds(s, ':', a + c + 1, e);
    if find(s, ':', a + c + 1, e) < e {
        assert(h[find(s, ':', a + c + 1, e) - a] == ':');
    }
    assert(s[e - 1] == '\\');
    assert(c + 1 < h.len()) by {
        if c == h.len() - 1 {
            assert(h[c] == '\\');
        }
    }
    lemma_marker_continues(s, a + c + 1, e);
    assert(s[a] == h[0]);
    let (next, done) = step(s, a, e, Scan::Idle)->Ok_0;
    lemma_open_tail(s, line_break(s, a) + 1, next->Open_0);
}

} // verus!
