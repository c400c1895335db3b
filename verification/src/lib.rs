//! A small line-oriented text search library.
//!
//! Given a query string and the full text of a document held in memory, the
//! library returns every line of the document that contains the query, either
//! case-sensitively (`search`) or case-insensitively
//! (`search_case_insensitive`). Matching lines are returned as borrowed spans
//! of the original document, in the document's own order and casing. A
//! `Config` gathers the query, the file name and the case-sensitivity flag
//! from plain values handed in by the caller.

use vstd::prelude::*;

verus! {

/// True when `pat` occurs in `text` as a contiguous run of characters.
pub open spec fn contains_substring(text: Seq<char>, pat: Seq<char>) -> bool {
    exists|i: int|
        0 <= i && i + pat.len() <= text.len() && #[trigger] text.subrange(i, i + pat.len() as int)
            == pat
}

/// The lines formed by the unread characters `rest`, given that the
/// characters `cur` of the current line have been read already: a line ends
/// at each `'\n'`, and a final line without a terminating `'\n'` still
/// counts, but a trailing `'\n'` adds no empty line after it.
pub open spec fn lines_from(rest: Seq<char>, cur: Seq<char>) -> Seq<Seq<char>>
    decreases rest.len(),
{
    if rest.len() == 0 {
        if cur.len() == 0 {
            Seq::empty()
        } else {
            seq![cur]
        }
    } else if rest[0] == '\n' {
        seq![cur] + lines_from(rest.subrange(1, rest.len() as int), Seq::empty())
    } else {
        lines_from(rest.subrange(1, rest.len() as int), cur.push(rest[0]))
    }
}

/// The lines of a document: the text split at `'\n'`. An empty document has
/// no lines, a final unterminated line is kept, and a trailing newline does
/// not add an empty final line.
pub open spec fn lines_of(text: Seq<char>) -> Seq<Seq<char>> {
    lines_from(text, Seq::empty())
}

/// What `search` returns: the lines of `contents` that contain `query`, in
/// the document's order.
pub open spec fn search_spec(query: Seq<char>, contents: Seq<char>) -> Seq<Seq<char>> {
    lines_of(contents).filter(|line: Seq<char>| contains_substring(line, query))
}

/// The characters that Unicode lowercasing yields for `s`; determined by the
/// characters of `s` alone. See the `lowercase` wrapper.
pub uninterp spec fn lower_of(s: Seq<char>) -> Seq<char>;

/// What `search_case_insensitive` returns: the lines of `contents` whose
/// lowercase form contains the lowercase form of `query`. The lines come
/// back in the document's order and original casing; only the matching
/// decision is case-folded.
pub open spec fn search_case_insensitive_spec(query: Seq<char>, contents: Seq<char>) -> Seq<
    Seq<char>,
> {
    lines_of(contents).filter(
        |line: Seq<char>| contains_substring(lower_of(line), lower_of(query)),
    )
}

/// Relies on `str::to_lowercase`: the result is the Unicode lowercase
/// equivalent of the input, computed from the characters alone,
/// locale-independently.
#[verifier::external_body]
fn lowercase(s: &str) -> (r: String)
    ensures
        r@ == lower_of(s@),
{
    s.to_lowercase()
}

/// Whether the characters of `text` starting at position `at` read exactly
/// `pat`.
fn matches_at(text: &str, pat: &str, at: usize) -> (r: bool)
    requires
        at + pat@.len() <= text@.len(),
    ensures
        r == (text@.subrange(at as int, at as int + pat@.len() as int) == pat@),
{
    let n = text.unicode_len();
    let m = pat.unicode_len();
    let mut k: usize = 0;
    while k < m
        invariant
            n == text@.len(),
            m == pat@.len(),
            at + m <= n,
            k <= m,
            forall|j: int| 0 <= j < k ==> text@[at + j] == pat@[j],
        decreases m - k,
    {
        if text.get_char(at + k) != pat.get_char(k) {
            proof {
                assert(text@.subrange(at as int, at as int + m as int)[k as int] == text@[
                    at + k
                ]);
            }
            return false;
        }
        k += 1;
    }
    proof {
        assert(text@.subrange(at as int, at as int + m as int) =~= pat@);
    }
    true
}

/// Whether `text` contains `pat` as a substring, trying every start
/// position.
fn contains_str(text: &str, pat: &str) -> (r: bool)
    ensures
        r == contains_substring(text@, pat@),
{
    let n = text.unicode_len();
    let m = pat.unicode_len();
    if m > n {
        return false;
    }
    if m == 0 {
        proof {
            assert(text@.subrange(0, 0 + pat@.len() as int) =~= pat@);
        }
        return true;
    }
    let mut i: usize = 0;
    while i <= n - m
        invariant
            n == text@.len(),
            m == pat@.len(),
            1 <= m <= n,
            i <= n - m + 1,
            forall|j: int| 0 <= j < i ==> #[trigger] text@.subrange(j, j + m as int) != pat@,
        decreases n - i,
    {
        if matches_at(text, pat, i) {
            proof {
                assert(contains_substring(text@, pat@)) by {
                    assert(text@.subrange(i as int, i as int + pat@.len() as int) == pat@);
                }
            }
            return true;
        }
        i += 1;
    }
    false
}

/// The lines of `contents`, as borrowed spans of the original text, in the
/// document's order.
fn split_lines<'a>(contents: &'a str) -> (lines: Vec<&'a str>)
    ensures
        lines.deep_view() == lines_of(contents@),
{
    let n = contents.unicode_len();
    let mut lines: Vec<&'a str> = Vec::new();
    let mut start: usize = 0;
    let mut i: usize = 0;
    proof {
        assert(contents@.subrange(0, n as int) =~= contents@);
        assert(contents@.subrange(0, 0) =~= Seq::<char>::empty());
        assert(lines.deep_view() =~= Seq::<Seq<char>>::empty());
    }
    while i < n
        invariant
            n == contents@.len(),
            start <= i <= n,
            lines_of(contents@) == lines.deep_view() + lines_from(
                contents@.subrange(i as int, n as int),
                contents@.subrange(start as int, i as int),
            ),
        decreases n - i,
    {
        let ghost rest = contents@.subrange(i as int, n as int);
        let ghost cur = contents@.subrange(start as int, i as int);
        proof {
            assert(rest[0] == contents@[i as int]);
            assert(rest.subrange(1, rest.len() as int) =~= contents@.subrange(
                i as int + 1,
                n as int,
            ));
        }
        if contents.get_char(i) == '\n' {
            let line = contents.substring_char(start, i);
            let ghost old_deep = lines.deep_view();
            lines.push(line);
            proof {
                assert(lines.deep_view() =~= old_deep.push(cur));
                assert(Seq::<char>::empty() =~= contents@.subrange(i as int + 1, i as int + 1));
                assert(lines_from(rest, cur) == seq![cur] + lines_from(
                    contents@.subrange(i as int + 1, n as int),
                    contents@.subrange(i as int + 1, i as int + 1),
                ));
                assert(old_deep + lines_from(rest, cur) =~= lines.deep_view() + lines_from(
                    contents@.subrange(i as int + 1, n as int),
                    contents@.subrange(i as int + 1, i as int + 1),
                ));
            }
            start = i + 1;
        } else {
            proof {
                assert(cur.push(contents@[i as int]) =~= contents@.subrange(
                    start as int,
                    i as int + 1,
                ));
                assert(lines_from(rest, cur) == lines_from(
                    contents@.subrange(i as int + 1, n as int),
                    contents@.subrange(start as int, i as int + 1),
                ));
            }
        }
        i += 1;
    }
    proof {
        assert(contents@.subrange(n as int, n as int) =~= Seq::<char>::empty());
    }
    if start < n {
        let line = contents.substring_char(start, n);
        let ghost old_deep = lines.deep_view();
        lines.push(line);
        proof {
            assert(lines.deep_view() =~= old_deep.push(contents@.subrange(
                start as int,
                n as int,
            )));
            assert(lines_of(contents@) =~= lines.deep_view());
        }
    } else {
        proof {
            assert(contents@.subrange(start as int, n as int).len() == 0);
            assert(lines.deep_view() + lines_from(
                contents@.subrange(n as int, n as int),
                contents@.subrange(start as int, n as int),
            ) =~= lines.deep_view());
        }
    }
    lines
}

/// `a` is a subsequence of `b`: the elements of `a` all occur in `b`, in the
/// same relative order (checked greedily from the end).
pub open spec fn is_subsequence_of<A>(a: Seq<A>, b: Seq<A>) -> bool
    decreases b.len(),
{
    if b.len() == 0 {
        a.len() == 0
    } else if a.len() > 0 && a.last() == b.last() {
        is_subsequence_of(a.drop_last(), b.drop_last())
    } else {
        is_subsequence_of(a, b.drop_last())
    }
}

/// Dropping the last element of a sequence keeps it a subsequence.
proof fn lemma_subsequence_drop_last<A>(a: Seq<A>, b: Seq<A>)
    requires
        is_subsequence_of(a, b),
        a.len() > 0,
    ensures
        is_subsequence_of(a.drop_last(), b),
    decreases b.len(),
{
    if b.len() == 0 {
        // contradicts a.len() > 0
    } else if a.last() == b.last() {
        if a.drop_last().len() > 0 && a.drop_last().last() == b.last() {
            lemma_subsequence_drop_last(a.drop_last(), b.drop_last());
        }
    } else {
        lemma_subsequence_drop_last(a, b.drop_last());
        if a.drop_last().len() > 0 && a.drop_last().last() == b.last() {
            lemma_subsequence_drop_last(a.drop_last(), b.drop_last());
        }
    }
}

/// Every element of a subsequence occurs in the larger sequence.
proof fn lemma_subsequence_contains<A>(a: Seq<A>, b: Seq<A>)
    requires
        is_subsequence_of(a, b),
    ensures
        forall|i: int| 0 <= i < a.len() ==> b.contains(#[trigger] a[i]),
    decreases b.len(),
{
    if b.len() == 0 {
    } else if a.len() > 0 && a.last() == b.last() {
        lemma_subsequence_contains(a.drop_last(), b.drop_last());
        assert forall|i: int| 0 <= i < a.len() implies b.contains(#[trigger] a[i]) by {
            if i < a.len() - 1 {
                assert(b.drop_last().contains(a.drop_last()[i]));
                let j = choose|j: int| 0 <= j < b.drop_last().len() && b.drop_last()[j] == a
                    .drop_last()[i];
                assert(b[j] == a[i]);
            } else {
                assert(b[b.len() - 1] == a[i]);
            }
        }
    } else {
        lemma_subsequence_contains(a, b.drop_last());
        assert forall|i: int| 0 <= i < a.len() implies b.contains(#[trigger] a[i]) by {
            assert(b.drop_last().contains(a[i]));
            let j = choose|j: int| 0 <= j < b.drop_last().len() && b.drop_last()[j] == a[i];
            assert(b[j] == a[i]);
        }
    }
}

/// Filtering a sequence yields a subsequence of it.
proof fn lemma_filter_subsequence<A>(s: Seq<A>, pred: spec_fn(A) -> bool)
    ensures
        is_subsequence_of(s.filter(pred), s),
    decreases s.len(),
{
    reveal(Seq::filter);
    if s.len() == 0 {
    } else {
        lemma_filter_subsequence(s.drop_last(), pred);
        let sub = s.drop_last().filter(pred);
        if pred(s.last()) {
            assert(s.filter(pred) == sub.push(s.last()));
            assert(sub.push(s.last()).drop_last() =~= sub);
        } else {
            assert(s.filter(pred) == sub);
            if sub.len() > 0 && sub.last() == s.last() {
                lemma_subsequence_drop_last(sub, s.drop_last());
            }
        }
    }
}

/// Filtering with a predicate that holds everywhere changes nothing.
proof fn lemma_filter_all<A>(s: Seq<A>, pred: spec_fn(A) -> bool)
    requires
        forall|i: int| 0 <= i < s.len() ==> pred(#[trigger] s[i]),
    ensures
        s.filter(pred) == s,
    decreases s.len(),
{
    reveal(Seq::filter);
    if s.len() == 0 {
        assert(s.filter(pred) =~= s);
    } else {
        lemma_filter_all(s.drop_last(), pred);
        assert(pred(s.last()));
        assert(s.filter(pred) =~= s.drop_last().push(s.last()));
        assert(s.drop_last().push(s.last()) =~= s);
    }
}

/// The positional argument that was not supplied when a `Config` could not
/// be built.
#[derive(Clone, Copy, Debug, PartialEq, Eq, Structural)]
pub enum MissingArgument {
    /// No query string was given after the program name.
    Query,
    /// A query string was given, but no file path after it.
    FilePath,
}

/// What one run searches for and where: the query, the path of the file to
/// search, and whether matching is case-sensitive. Immutable once built.
pub struct Config {
    pub query: String,
    pub filename: String,
    pub case_sensitive: bool,
}

impl Config {
    /// Builds the configuration from the argument list and the environment.
    ///
    /// The first argument is the program name and is discarded; the next two
    /// become the query and the file path, in that order. Matching is
    /// case-sensitive unless the caller reports that the `CASE_INSENSITIVE`
    /// environment variable is present (`case_insensitive_set`); its value
    /// does not matter. Fails when a positional argument is absent, naming
    /// the first one missing; nothing else is validated.
    pub fn new(args: Vec<String>, case_insensitive_set: bool) -> (result: Result<
        Config,
        MissingArgument,
    >)
        ensures
            args@.len() < 2 ==> result == Err::<Config, MissingArgument>(MissingArgument::Query),
            args@.len() == 2 ==> result == Err::<Config, MissingArgument>(
                MissingArgument::FilePath,
            ),
            args@.len() >= 3 ==> (result matches Ok(config) && config.query@ == args@[1]@
                && config.filename@ == args@[2]@ && config.case_sensitive
                == !case_insensitive_set),
    {
        if args.len() < 2 {
            return Err(MissingArgument::Query);
        }
        if args.len() < 3 {
            return Err(MissingArgument::FilePath);
        }
        let query = args[1].clone();
        let filename = args[2].clone();
        Ok(Config { query, filename, case_sensitive: !case_insensitive_set })
    }
}

/// Searches `contents` for lines that contain `query`, case-sensitively.
///
/// Returns the matching lines as borrowed spans of `contents`, in the
/// document's order; an empty document yields an empty result.
pub fn search<'a>(query: &str, contents: &'a str) -> (result: Vec<&'a str>)
    ensures
        result.deep_view() == search_spec(query@, contents@),
{
    let ghost pred = |line: Seq<char>| contains_substring(line, query@);
    let lines = split_lines(contents);
    let mut result: Vec<&'a str> = Vec::new();
    let mut idx: usize = 0;
    proof {
        reveal(Seq::filter);
        assert(lines.deep_view().subrange(0, 0) =~= Seq::<Seq<char>>::empty());
        assert(result.deep_view() =~= Seq::<Seq<char>>::empty().filter(pred));
    }
    while idx < lines.len()
        invariant
            lines.deep_view() == lines_of(contents@),
            idx <= lines@.len(),
            lines@.len() == lines.deep_view().len(),
            result.deep_view() == lines.deep_view().subrange(0, idx as int).filter(pred),
            pred == (|line: Seq<char>| contains_substring(line, query@)),
        decreases lines@.len() - idx,
    {
        let line = lines[idx];
        let ghost prefix = lines.deep_view().subrange(0, idx as int);
        let ghost extended = lines.deep_view().subrange(0, idx as int + 1);
        proof {
            assert(line.deep_view() == lines.deep_view()[idx as int]);
            assert(extended.drop_last() =~= prefix);
            assert(extended.last() == line@);
        }
        if contains_str(line, query) {
            let ghost old_deep = result.deep_view();
            result.push(line);
            proof {
                reveal(Seq::filter);
                assert(result.deep_view() =~= old_deep.push(line@));
                assert(extended.filter(pred) == prefix.filter(pred).push(line@));
            }
        } else {
            proof {
                reveal(Seq::filter);
                assert(extended.filter(pred) == prefix.filter(pred));
            }
        }
        idx += 1;
    }
    proof {
        assert(lines.deep_view().subrange(0, lines@.len() as int) =~= lines_of(contents@));
    }
    result
}

/// Searches `contents` for lines whose lowercase form contains the lowercase
/// form of `query`.
///
/// The matching decision is case-folded, but the returned lines are borrowed
/// spans of `contents` in their original casing, in the document's order.
pub fn search_case_insensitive<'a>(query: &str, contents: &'a str) -> (result: Vec<&'a str>)
    ensures
        result.deep_view() == search_case_insensitive_spec(query@, contents@),
{
    let ghost pred = |line: Seq<char>| contains_substring(lower_of(line), lower_of(query@));
    let query_lower = lowercase(query);
    let lines = split_lines(contents);
    let mut result: Vec<&'a str> = Vec::new();
    let mut idx: usize = 0;
    proof {
        reveal(Seq::filter);
        assert(lines.deep_view().subrange(0, 0) =~= Seq::<Seq<char>>::empty());
        assert(result.deep_view() =~= Seq::<Seq<char>>::empty().filter(pred));
    }
    while idx < lines.len()
        invariant
            lines.deep_view() == lines_of(contents@),
            idx <= lines@.len(),
            lines@.len() == lines.deep_view().len(),
            query_lower@ == lower_of(query@),
            result.deep_view() == lines.deep_view().subrange(0, idx as int).filter(pred),
            pred == (|line: Seq<char>| contains_substring(lower_of(line), lower_of(query@))),
        decreases lines@.len() - idx,
    {
        let line = lines[idx];
        let line_lower = lowercase(line);
        let ghost prefix = lines.deep_view().subrange(0, idx as int);
        let ghost extended = lines.deep_view().subrange(0, idx as int + 1);
        proof {
            assert(line.deep_view() == lines.deep_view()[idx as int]);
            assert(extended.drop_last() =~= prefix);
            assert(extended.last() == line@);
        }
        if contains_str(line_lower.as_str(), query_lower.as_str()) {
            let ghost old_deep = result.deep_view();
            result.push(line);
            proof {
                reveal(Seq::filter);
                assert(result.deep_view() =~= old_deep.push(line@));
                assert(extended.filter(pred) == prefix.filter(pred).push(line@));
            }
        } else {
            proof {
                reveal(Seq::filter);
                assert(extended.filter(pred) == prefix.filter(pred));
            }
        }
        idx += 1;
    }
    proof {
        assert(lines.deep_view().subrange(0, lines@.len() as int) =~= lines_of(contents@));
    }
    result
}

/// Runs the search that `config` asks for on `contents`: the case-sensitive
/// one when `config.case_sensitive` holds, the case-insensitive one
/// otherwise.
pub fn search_with_config<'a>(config: &Config, contents: &'a str) -> (result: Vec<&'a str>)
    ensures
        config.case_sensitive ==> result.deep_view() == search_spec(config.query@, contents@),
        !config.case_sensitive ==> result.deep_view() == search_case_insensitive_spec(
            config.query@,
            contents@,
        ),
{
    if config.case_sensitive {
        search(config.query.as_str(), contents)
    } else {
        search_case_insensitive(config.query.as_str(), contents)
    }
}

/// `search` is sound: every line it returns contains the query, is a line of
/// the document, and the returned lines keep the document's line order (they
/// form a subsequence of the document's lines).
pub proof fn lemma_search_sound(query: Seq<char>, contents: Seq<char>)
    ensures
        forall|i: int|
            0 <= i < search_spec(query, contents).len() ==> contains_substring(
                #[trigger] search_spec(query, contents)[i],
                query,
            ),
        forall|i: int|
            0 <= i < search_spec(query, contents).len() ==> lines_of(contents).contains(
                #[trigger] search_spec(query, contents)[i],
            ),
        is_subsequence_of(search_spec(query, contents), lines_of(contents)),
{
    let pred = |line: Seq<char>| contains_substring(line, query);
    let lines = lines_of(contents);
    broadcast use vstd::seq_lib::group_filter_ensures;

    lemma_filter_subsequence(lines, pred);
    lemma_subsequence_contains(lines.filter(pred), lines);
}

/// `search_case_insensitive` is sound: every line it returns is a line of the
/// document in its original casing, its lowercase form contains the lowercase
/// form of the query, and the returned lines keep the document's line order.
pub proof fn lemma_search_case_insensitive_sound(query: Seq<char>, contents: Seq<char>)
    ensures
        forall|i: int|
            0 <= i < search_case_insensitive_spec(query, contents).len() ==> contains_substring(
                lower_of(#[trigger] search_case_insensitive_spec(query, contents)[i]),
                lower_of(query),
            ),
        forall|i: int|
            0 <= i < search_case_insensitive_spec(query, contents).len() ==> lines_of(
                contents,
            ).contains(#[trigger] search_case_insensitive_spec(query, contents)[i]),
        is_subsequence_of(search_case_insensitive_spec(query, contents), lines_of(contents)),
{
    let pred = |line: Seq<char>| contains_substring(lower_of(line), lower_of(query));
    let lines = lines_of(contents);
    broadcast use vstd::seq_lib::group_filter_ensures;

    lemma_filter_subsequence(lines, pred);
    lemma_subsequence_contains(lines.filter(pred), lines);
}

/// `search` is pure: two results of searching identical inputs are
/// identical, since each one is pinned to `search_spec` of the inputs.
pub proof fn lemma_search_deterministic(
    query: Seq<char>,
    contents: Seq<char>,
    r1: Seq<Seq<char>>,
    r2: Seq<Seq<char>>,
)
    requires
        r1 == search_spec(query, contents),
        r2 == search_spec(query, contents),
    ensures
        r1 == r2,
{
}

/// `search_case_insensitive` is pure: two results of searching identical
/// inputs are identical, since each one is pinned to
/// `search_case_insensitive_spec` of the inputs.
pub proof fn lemma_search_case_insensitive_deterministic(
    query: Seq<char>,
    contents: Seq<char>,
    r1: Seq<Seq<char>>,
    r2: Seq<Seq<char>>,
)
    requires
        r1 == search_case_insensitive_spec(query, contents),
        r2 == search_case_insensitive_spec(query, contents),
    ensures
        r1 == r2,
{
}

/// An empty document yields an empty result for both search operations,
/// whatever the query.
pub proof fn lemma_empty_contents(query: Seq<char>)
    ensures
        search_spec(query, Seq::empty()) == Seq::<Seq<char>>::empty(),
        search_case_insensitive_spec(query, Seq::empty()) == Seq::<Seq<char>>::empty(),
{
    reveal(Seq::filter);
    assert(lines_of(Seq::empty()) =~= Seq::<Seq<char>>::empty());
    assert(search_spec(query, Seq::empty()) =~= Seq::<Seq<char>>::empty());
    assert(search_case_insensitive_spec(query, Seq::empty()) =~= Seq::<Seq<char>>::empty());
}

/// The empty query is a substring of every line, so searching for it returns
/// every line of the document.
pub proof fn lemma_empty_query(contents: Seq<char>)
    ensures
        search_spec(Seq::empty(), contents) == lines_of(contents),
{
    let pred = |line: Seq<char>| contains_substring(line, Seq::<char>::empty());
    let lines = lines_of(contents);
    assert forall|i: int| 0 <= i < lines.len() implies pred(#[trigger] lines[i]) by {
        assert(lines[i].subrange(0, 0 + Seq::<char>::empty().len() as int) =~= Seq::<
            char,
        >::empty());
    }
    lemma_filter_all(lines, pred);
}

} // verus!
