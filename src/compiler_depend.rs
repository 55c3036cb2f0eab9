//! Parsing of `compiler_depend.make` manifests: one record per rule, mapping
//! an object file to the files it depends on.

use vstd::prelude::*;

verus! {

/// One dependency rule: an object file and the files it depends on, in the
/// order in which the manifest lists them.
#[derive(Debug, PartialEq, Eq)]
pub struct DepInfo {
    pub object: String,
    pub deps: Vec<String>,
}

/// What a `DepInfo` holds, as character sequences.
pub struct DepInfoView {
    pub object: Seq<char>,
    pub deps: Seq<Seq<char>>,
}

impl View for DepInfo {
    type V = DepInfoView;

    open spec fn view(&self) -> DepInfoView {
        DepInfoView { object: self.object@, deps: strings_view(self.deps@) }
    }
}

/// The strings of `v` as character sequences.
pub open spec fn strings_view(v: Seq<String>) -> Seq<Seq<char>> {
    v.map_values(|d: String| d@)
}

/// The records of `v` as views.
pub open spec fn records_view(v: Seq<DepInfo>) -> Seq<DepInfoView> {
    v.map_values(|d: DepInfo| d@)
}

/// Why a manifest was rejected.
#[derive(Debug, Clone, Copy, PartialEq, Eq, Structural)]
pub enum ParseError {
    /// The text ended while a rule was still continued onto a next line.
    UnexpectedEOF,
    /// A line outside any rule is neither blank, nor a comment, nor a rule.
    UnrecognizedLine,
    /// A colon stood where only dependency paths may stand.
    UnexpectedColon,
}

impl ParseError {
    /// A human-readable description of the error.
    pub fn message(&self) -> (r: String)
        ensures
            *self == ParseError::UnexpectedEOF ==> r@ == "Unexpected EOF while parsing file"@,
            *self == ParseError::UnrecognizedLine ==> r@ == "Line did not match expected pattern"@,
            *self == ParseError::UnexpectedColon ==> r@
                == "Unexpectedly encountered a colon. Filenames may not contain colons."@,
    {
        match self {
            ParseError::UnexpectedEOF => String::from_str("Unexpected EOF while parsing file"),
            ParseError::UnrecognizedLine => String::from_str("Line did not match expected pattern"),
            ParseError::UnexpectedColon => String::from_str(
                "Unexpectedly encountered a colon. Filenames may not contain colons.",
            ),
        }
    }
}

/// Where the parser stands between two lines.
pub enum Scan {
    /// No rule is in progress.
    Idle,
    /// A rule whose last line ended with a continuation marker.
    Open(DepInfoView),
}

/// Unicode `White_Space`: the characters that `char::is_whitespace` accepts
/// and that `str::trim` removes.
pub open spec fn white(c: char) -> bool {
    let u = c as u32;
    (0x09 <= u && u <= 0x0d) || u == 0x20 || u == 0x85 || u == 0xa0 || u == 0x1680
        || (0x2000 <= u && u <= 0x200a) || u == 0x2028 || u == 0x2029 || u == 0x202f
        || u == 0x205f || u == 0x3000
}

/// Whether `c` is white space, as `white` defines it.
pub fn is_white(c: char) -> (r: bool)
    ensures
        r == white(c),
{
    let u = c as u32;
    (0x09 <= u && u <= 0x0d) || u == 0x20 || u == 0x85 || u == 0xa0 || u == 0x1680
        || (0x2000 <= u && u <= 0x200a) || u == 0x2028 || u == 0x2029 || u == 0x202f
        || u == 0x205f || u == 0x3000
}

/// Index of the first `c` in `s[i..hi]`, or `hi` when there is none.
pub open spec fn find(s: Seq<char>, c: char, i: int, hi: int) -> int
    decreases hi - i,
{
    if i >= hi {
        hi
    } else if s[i] == c {
        i
    } else {
        find(s, c, i + 1, hi)
    }
}

/// Start of `s[i..hi]` once leading white space is skipped.
pub open spec fn skip_lead(s: Seq<char>, i: int, hi: int) -> int
    decreases hi - i,
{
    if i < hi && white(s[i]) {
        skip_lead(s, i + 1, hi)
    } else {
        i
    }
}

/// End of `s[lo..j]` once trailing white space is dropped.
pub open spec fn skip_trail(s: Seq<char>, lo: int, j: int) -> int
    decreases j - lo,
{
    if lo < j && white(s[j - 1]) {
        skip_trail(s, lo, j - 1)
    } else {
        j
    }
}

/// Whether `s[lo..hi]`, once trimmed, ends with a continuation marker.
pub open spec fn continues(s: Seq<char>, lo: int, hi: int) -> bool {
    let a = skip_lead(s, lo, hi);
    let b = skip_trail(s, a, hi);
    a < b && s[b - 1] == '\\'
}

/// The text of `s[lo..hi]` without surrounding white space.
pub open spec fn trimmed(s: Seq<char>, lo: int, hi: int) -> Seq<char> {
    let a = skip_lead(s, lo, hi);
    s.subrange(a, skip_trail(s, a, hi))
}

/// The dependency text of `s[lo..hi]`: trimmed and, where it ends with a
/// continuation marker, that marker removed and the rest trimmed again.
pub open spec fn dep_text(s: Seq<char>, lo: int, hi: int) -> Seq<char> {
    if continues(s, lo, hi) {
        let a = skip_lead(s, lo, hi);
        trimmed(s, a, skip_trail(s, a, hi) - 1)
    } else {
        trimmed(s, lo, hi)
    }
}

/// A dependency list of the text alone, or of nothing when it is empty.
pub open spec fn keep(t: Seq<char>) -> Seq<Seq<char>> {
    if t.len() == 0 {
        Seq::empty()
    } else {
        seq![t]
    }
}

/// The record that a rule line closes, or carries on to the next line.
pub open spec fn finish(
    rec: DepInfoView,
    more: bool,
) -> Result<(Scan, Seq<DepInfoView>), ParseError> {
    if more {
        Ok((Scan::Open(rec), Seq::empty()))
    } else {
        Ok((Scan::Idle, seq![rec]))
    }
}

/// The effect of the line `s[a..e]` in state `st`: the next state and the
/// records that the line completes, or the error it raises.
pub open spec fn step(s: Seq<char>, a: int, e: int, st: Scan) -> Result<
    (Scan, Seq<DepInfoView>),
    ParseError,
> {
    match st {
        Scan::Idle => {
            if a == e || s[a] == '#' {
                Ok((Scan::Idle, Seq::empty()))
            } else {
                let c = find(s, ':', a, e);
                if c == e {
                    Err(ParseError::UnrecognizedLine)
                } else if find(s, ':', c + 1, e) < e {
                    Err(ParseError::UnexpectedColon)
                } else {
                    finish(
                        DepInfoView { object: s.subrange(a, c), deps: keep(dep_text(s, c + 1, e)) },
                        continues(s, c + 1, e),
                    )
                }
            }
        },
        Scan::Open(rec) => {
            if find(s, ':', a, e) < e {
                Err(ParseError::UnexpectedColon)
            } else {
                finish(
                    DepInfoView { object: rec.object, deps: rec.deps + keep(dep_text(s, a, e)) },
                    continues(s, a, e),
                )
            }
        },
    }
}

/// Position of the newline that ends the line starting at `start`, or the
/// length of the text for a last line without one.
pub open spec fn line_break(s: Seq<char>, start: int) -> int {
    find(s, '\n', start, s.len() as int)
}

/// End of the text of the line starting at `start`: a carriage return just
/// before its newline does not belong to it.
pub open spec fn line_end(s: Seq<char>, start: int) -> int {
    let nl = line_break(s, start);
    if start < nl < s.len() && s[nl - 1] == '\r' {
        nl - 1
    } else {
        nl
    }
}

/// `rest`, with `done` in front of its records.
pub open spec fn after(done: Seq<DepInfoView>, rest: Result<Seq<DepInfoView>, ParseError>) -> Result<
    Seq<DepInfoView>,
    ParseError,
> {
    match rest {
        Ok(r) => Ok(done + r),
        Err(x) => Err(x),
    }
}

/// The records of the lines from `start` on, read in state `st`.
pub open spec fn parse_from(s: Seq<char>, start: int, st: Scan) -> Result<
    Seq<DepInfoView>,
    ParseError,
>
    decreases s.len() + 1 - start,
    via parse_from_decreases
{
    if start >= s.len() {
        match st {
            Scan::Idle => Ok(Seq::empty()),
            Scan::Open(_) => Err(ParseError::UnexpectedEOF),
        }
    } else {
        match step(s, start, line_end(s, start), st) {
            Ok((next, done)) => after(done, parse_from(s, line_break(s, start) + 1, next)),
            Err(x) => Err(x),
        }
    }
}

#[via_fn]
proof fn parse_from_decreases(s: Seq<char>, start: int, st: Scan) {
    if start < s.len() {
        lemma_find_bounds(s, '\n', start, s.len() as int);
    }
}

/// The records of a whole manifest, or the first error in it.
pub open spec fn parse(s: Seq<char>) -> Result<Seq<DepInfoView>, ParseError> {
    parse_from(s, 0, Scan::Idle)
}

/// What `extract_dependencies2` returns for the text `s`.
pub open spec fn parsed_as(s: Seq<char>, r: Result<Vec<DepInfo>, ParseError>) -> bool {
    &&& r is Ok <==> parse(s) is Ok
    &&& r is Ok ==> records_view(r->Ok_0@) == parse(s)->Ok_0
    &&& r is Err ==> r->Err_0 == parse(s)->Err_0
}

/// The parser state that `state` stands for.
pub open spec fn scan_of(state: Option<DepInfo>) -> Scan {
    match state {
        None => Scan::Idle,
        Some(d) => Scan::Open(d@),
    }
}

/// The records that `done` holds: none, or the one.
pub open spec fn done_view(done: Option<DepInfo>) -> Seq<DepInfoView> {
    match done {
        None => Seq::empty(),
        Some(d) => seq![d@],
    }
}

/// `find` stays in its range, lands on a `c`, and passes over none.
pub proof fn lemma_find_bounds(s: Seq<char>, c: char, i: int, hi: int)
    requires
        i <= hi,
    ensures
        i <= find(s, c, i, hi) <= hi,
        find(s, c, i, hi) < hi ==> s[find(s, c, i, hi)] == c,
        forall|k: int| i <= k < find(s, c, i, hi) ==> s[k] != c,
    decreases hi - i,
{
    if i < hi && s[i] != c {
        lemma_find_bounds(s, c, i + 1, hi);
    }
}

/// Trimming `s[lo..hi]` stays in its range and stops at non-white characters.
pub proof fn lemma_skip_bounds(s: Seq<char>, lo: int, hi: int)
    requires
        lo <= hi,
    ensures
        lo <= skip_lead(s, lo, hi) <= hi,
        skip_lead(s, lo, hi) <= skip_trail(s, skip_lead(s, lo, hi), hi) <= hi,
        skip_lead(s, lo, hi) < hi ==> !white(s[skip_lead(s, lo, hi)]),
        forall|k: int| lo <= k < skip_lead(s, lo, hi) ==> white(s[k]),
    decreases hi - lo,
{
    if lo < hi && white(s[lo]) {
        lemma_skip_bounds(s, lo + 1, hi);
    } else {
        lemma_trail_bounds(s, lo, hi);
    }
}

/// `skip_trail` stays in its range and drops only white space.
pub proof fn lemma_trail_bounds(s: Seq<char>, lo: int, j: int)
    requires
        lo <= j,
    ensures
        lo <= skip_trail(s, lo, j) <= j,
        lo < skip_trail(s, lo, j) ==> !white(s[skip_trail(s, lo, j) - 1]),
        forall|k: int| skip_trail(s, lo, j) <= k < j ==> white(s[k]),
    decreases j - lo,
{
    if lo < j && white(s[j - 1]) {
        lemma_trail_bounds(s, lo, j - 1);
    }
}

/// Index of the first `c` in `s[i..hi]`, or `hi`.
fn find_char(s: &Vec<char>, c: char, i: usize, hi: usize) -> (r: usize)
    requires
        i <= hi <= s@.len(),
    ensures
        r == find(s@, c, i as int, hi as int),
{
    let mut k = i;
    while k < hi
        invariant
            i <= k <= hi <= s@.len(),
            find(s@, c, i as int, hi as int) == find(s@, c, k as int, hi as int),
        decreases hi - k,
    {
        if s[k] == c {
            return k;
        }
        k = k + 1;
    }
    k
}

/// `skip_lead` for `s[i..hi]`.
fn skip_white(s: &Vec<char>, i: usize, hi: usize) -> (r: usize)
    requires
        i <= hi <= s@.len(),
    ensures
        r == skip_lead(s@, i as int, hi as int),
{
    let mut k = i;
    while k < hi && is_white(s[k])
        invariant
            i <= k <= hi <= s@.len(),
            skip_lead(s@, i as int, hi as int) == skip_lead(s@, k as int, hi as int),
        decreases hi - k,
    {
        k = k + 1;
    }
    k
}

/// `skip_trail` for `s[lo..j]`.
fn drop_white(s: &Vec<char>, lo: usize, j: usize) -> (r: usize)
    requires
        lo <= j <= s@.len(),
    ensures
        r == skip_trail(s@, lo as int, j as int),
{
    let mut k = j;
    while lo < k && is_white(s[k - 1])
        invariant
            lo <= k <= j <= s@.len(),
            skip_trail(s@, lo as int, j as int) == skip_trail(s@, lo as int, k as int),
        decreases k - lo,
    {
        k = k - 1;
    }
    k
}

/// The characters of `input`, in order.
pub fn chars_of(input: &str) -> (r: Vec<char>)
    ensures
        r@ == input@,
{
    broadcast use vstd::string::group_string_axioms;
    let mut out: Vec<char> = Vec::new();
    for c in it: input.chars()
        invariant
            out@ == it.seq().take(it.index() as int),
    {
        out.push(c);
    }
    out
}

/// Relies on `String::push`: the character is appended.
#[verifier::external_body]
pub(crate) fn push_char(s: &mut String, c: char)
    ensures
        final(s)@ == old(s)@.push(c),
{
    s.push(c)
}

/// The characters `s[lo..hi]` as a string.
fn text_of(s: &Vec<char>, lo: usize, hi: usize) -> (r: String)
    requires
        lo <= hi <= s@.len(),
    ensures
        r@ == s@.subrange(lo as int, hi as int),
{
    let mut r = String::new();
    let mut k = lo;
    while k < hi
        invariant
            lo <= k <= hi <= s@.len(),
            r@ == s@.subrange(lo as int, k as int),
        decreases hi - k,
    {
        push_char(&mut r, s[k]);
        assert(s@.subrange(lo as int, k + 1) =~= s@.subrange(lo as int, k as int).push(s@[k as int]));
        k = k + 1;
    }
    r
}

/// Appends the dependency text of `s[lo..hi]` to `deps` unless it is empty,
/// and tells whether the text continues on the next line.
fn push_dep(deps: &mut Vec<String>, s: &Vec<char>, lo: usize, hi: usize) -> (more: bool)
    requires
        lo <= hi <= s@.len(),
    ensures
        more == continues(s@, lo as int, hi as int),
        strings_view(final(deps)@) == strings_view(old(deps)@) + keep(dep_text(s@, lo as int, hi as int)),
{
    proof {
        lemma_skip_bounds(s@, lo as int, hi as int);
    }
    let a = skip_white(s, lo, hi);
    let b = drop_white(s, a, hi);
    let more = a < b && s[b - 1] == '\\';
    let (ta, tb) = if more {
        proof {
            lemma_skip_bounds(s@, a as int, b - 1);
        }
        let ta = skip_white(s, a, b - 1);
        let tb = drop_white(s, ta, b - 1);
        (ta, tb)
    } else {
        (a, b)
    };
    if ta < tb {
        let t = text_of(s, ta, tb);
        deps.push(t);
        assert(strings_view(deps@) =~= strings_view(old(deps)@) + seq![t@]);
    } else {
        assert(strings_view(deps@) =~= strings_view(old(deps)@) + Seq::<Seq<char>>::empty());
    }
    more
}

/// Reads the line `s[a..e]` in the state `state` (`Some` while a rule is
/// continued): the next state and the record the line completes, if any.
fn read_line(s: &Vec<char>, a: usize, e: usize, state: Option<DepInfo>) -> (r: Result<
    (Option<DepInfo>, Option<DepInfo>),
    ParseError,
>)
    requires
        a <= e <= s@.len(),
    ensures
        match step(s@, a as int, e as int, scan_of(state)) {
            Ok((next, done)) => r is Ok && scan_of(r->Ok_0.0) == next && done_view(r->Ok_0.1)
                == done,
            Err(x) => r is Err && r->Err_0 == x,
        },
{
    match state {
        None => {
            if a == e || s[a] == '#' {
                return Ok((None, None));
            }
            let c = find_char(s, ':', a, e);
            if c == e {
                return Err(ParseError::UnrecognizedLine);
            }
            proof {
                lemma_find_bounds(s@, ':', a as int, e as int);
            }
            if find_char(s, ':', c + 1, e) < e {
                return Err(ParseError::UnexpectedColon);
            }
            let mut deps: Vec<String> = Vec::new();
            let more = push_dep(&mut deps, s, c + 1, e);
            let rec = DepInfo { object: text_of(s, a, c), deps };
            assert(strings_view(Seq::<String>::empty()) =~= Seq::<Seq<char>>::empty());
            if more {
                Ok((Some(rec), None))
            } else {
                Ok((None, Some(rec)))
            }
        },
        Some(rec) => {
            if find_char(s, ':', a, e) < e {
                return Err(ParseError::UnexpectedColon);
            }
            let DepInfo { object, deps } = rec;
            let mut deps = deps;
            let more = push_dep(&mut deps, s, a, e);
            let rec = DepInfo { object, deps };
            if more {
                Ok((Some(rec), None))
            } else {
                Ok((None, Some(rec)))
            }
        },
    }
}

/// Parses a whole manifest into its records, in document order, or returns
/// the error of its first malformed line.
///
/// The text is read line by line (`\n` or `\r\n` ends a line). Outside a
/// rule, blank lines and lines starting with `#` are skipped, and any other
/// line must be `object: deps`, split at its only colon. A line whose trimmed
/// dependency text ends with `\` continues the rule on the next line; such a
/// line may hold no colon, and a comment there is dependency text. Every
/// dependency is trimmed of white space and dropped when empty; the object is
/// kept as written. A rule still continued at the end of the text is an
/// error.
pub fn extract_dependencies2(input: &str) -> (r: Result<Vec<DepInfo>, ParseError>)
    ensures
        parsed_as(input@, r),
{
    let s = chars_of(input);
    let n = s.len();
    let mut out: Vec<DepInfo> = Vec::new();
    let mut state: Option<DepInfo> = None;
    let mut start: usize = 0;
    assert(records_view(out@) =~= Seq::<DepInfoView>::empty());
    while start < n
        invariant
            n == s@.len(),
            s@ == input@,
            start <= n,
            parse(s@) == after(records_view(out@), parse_from(s@, start as int, scan_of(state))),
        decreases n - start,
    {
        let nl = find_char(&s, '\n', start, n);
        proof {
            lemma_find_bounds(s@, '\n', start as int, n as int);
        }
        let e = if start < nl && nl < n && s[nl - 1] == '\r' {
            nl - 1
        } else {
            nl
        };
        let ghost before = records_view(out@);
        let ghost mut added: Seq<DepInfoView> = Seq::empty();
        match read_line(&s, start, e, state) {
            Err(x) => {
                return Err(x);
            },
            Ok((next, done)) => {
                match done {
                    Some(d) => {
                        out.push(d);
                    },
                    None => {},
                }
                assert(records_view(out@) =~= before + done_view(done));
                proof {
                    added = done_view(done);
                }
                state = next;
            },
        }
        let ghost old_start = start;
        start = if nl < n {
            nl + 1
        } else {
            n
        };
        assert(parse_from(s@, start as int, scan_of(state)) == parse_from(
            s@,
            line_break(s@, old_start as int) + 1,
            scan_of(state),
        ));
        assert(before + (added + parse_from(s@, start as int, scan_of(state))->Ok_0) =~= (before
            + added) + parse_from(s@, start as int, scan_of(state))->Ok_0);
    }
    match state {
        Some(_) => Err(ParseError::UnexpectedEOF),
        None => {
            assert(records_view(out@) + Seq::<DepInfoView>::empty() =~= records_view(out@));
            Ok(out)
        },
    }
}

/// The dependencies of all records, record after record.
pub open spec fn all_deps(recs: Seq<DepInfoView>) -> Seq<Seq<char>>
    decreases recs.len(),
{
    if recs.len() == 0 {
        Seq::empty()
    } else {
        all_deps(recs.drop_last()) + recs.last().deps
    }
}

/// Every dependency of every record, in the order of the records and, within
/// one record, in the order of the manifest. Duplicates are kept.
pub fn dependency_list(records: &Vec<DepInfo>) -> (r: Vec<String>)
    ensures
        strings_view(r@) == all_deps(records_view(records@)),
{
    let mut out: Vec<String> = Vec::new();
    let n = records.len();
    let mut i: usize = 0;
    assert(records_view(records@).take(0) =~= Seq::<DepInfoView>::empty());
    assert(strings_view(out@) =~= Seq::<Seq<char>>::empty());
    while i < n
        invariant
            n == records@.len(),
            i <= n,
            strings_view(out@) == all_deps(records_view(records@).take(i as int)),
        decreases n - i,
    {
        let deps = &records[i].deps;
        let ghost before = strings_view(out@);
        let m = deps.len();
        let mut j: usize = 0;
        assert(strings_view(deps@).take(0) =~= Seq::<Seq<char>>::empty());
        assert(before + Seq::<Seq<char>>::empty() =~= before);
        while j < m
            invariant
                m == deps@.len(),
                j <= m,
                strings_view(out@) == before + strings_view(deps@).take(j as int),
            decreases m - j,
        {
            let ghost prev = out@;
            out.push(deps[j].clone());
            assert(strings_view(out@) =~= strings_view(prev).push(deps@[j as int]@));
            assert(strings_view(deps@).take(j + 1) =~= strings_view(deps@).take(j as int).push(
                deps@[j as int]@,
            ));
            assert(strings_view(out@) =~= before + strings_view(deps@).take(j + 1));
            j = j + 1;
        }
        assert(strings_view(deps@).take(m as int) =~= strings_view(deps@));
        assert(records_view(records@).take(i + 1).drop_last() =~= records_view(records@).take(
            i as int,
        ));
        i = i + 1;
    }
    assert(records_view(records@).take(n as int) =~= records_view(records@));
    out
}

} // verus!
