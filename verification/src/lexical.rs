//! The lexical index's decisions: which files to ingest, under which
//! language label, and which lines of a stored document match a query.
//!
//! The inverted-index engine itself — adding documents, committing, running
//! the ranked query — is the application's collaborator; everything it is
//! fed, and how its hits are annotated with matching lines, is decided
//! here.

use vstd::prelude::*;

use crate::language::{
    extension_start, range_is1, range_is2, range_is3, range_is4, spec_extension,
};
use crate::text::{
    contains_sub, count_newlines, lower_of, spec_contains_sub, spec_newlines, unicode_lowercase,
    CARRIAGE_RETURN, NEWLINE,
};

verus! {

use vstd::string::StrSliceExecFns;

/// At most this many matching lines are reported per document.
pub const MAX_MATCH_LINES: usize = 10;

/// Statistics from an indexing run.
#[derive(Debug, Clone, Copy, PartialEq, Eq, Structural)]
pub struct IndexStats {
    pub files_indexed: usize,
    pub total_lines: usize,
    pub duration_ms: u64,
}

impl Default for IndexStats {
    /// All counts at zero.
    fn default() -> (res: Self)
        ensures
            res.files_indexed == 0,
            res.total_lines == 0,
            res.duration_ms == 0,
    {
        IndexStats { files_indexed: 0, total_lines: 0, duration_ms: 0 }
    }
}

impl IndexStats {
    /// Count one ingested file of `line_count` lines, saturating at the
    /// machine's limits.
    pub fn record_file(&mut self, line_count: usize)
        ensures
            final(self).files_indexed == (if old(self).files_indexed < usize::MAX {
                old(self).files_indexed + 1
            } else {
                old(self).files_indexed as int
            }),
            final(self).total_lines == (if old(self).total_lines + line_count <= usize::MAX {
                old(self).total_lines + line_count
            } else {
                usize::MAX as int
            }),
            final(self).duration_ms == old(self).duration_ms,
    {
        if self.files_indexed < usize::MAX {
            self.files_indexed = self.files_indexed + 1;
        }
        if usize::MAX - self.total_lines >= line_count {
            self.total_lines = self.total_lines + line_count;
        } else {
            self.total_lines = usize::MAX;
        }
    }
}

/// Index health, computed on demand from the on-disk state.
#[derive(Debug, Clone, Copy, PartialEq, Eq, Structural)]
pub struct IndexStatus {
    pub num_docs: u64,
    pub size_bytes: u64,
    pub healthy: bool,
}

/// The language label an extension selects for lexical indexing.
pub open spec fn spec_lex_label(e: Seq<char>) -> Option<Seq<char>> {
    if e == seq!['r', 's'] {
        Some("rust"@)
    } else if e == seq!['p', 'y'] {
        Some("python"@)
    } else if e == seq!['t', 's'] || e == seq!['t', 's', 'x'] {
        Some("typescript"@)
    } else if e == seq!['j', 's'] || e == seq!['j', 's', 'x'] {
        Some("javascript"@)
    } else if e == seq!['g', 'o'] {
        Some("go"@)
    } else if e == seq!['j', 'a', 'v', 'a'] {
        Some("java"@)
    } else if e == seq!['c'] || e == seq!['h'] {
        Some("c"@)
    } else if e == seq!['c', 'p', 'p'] || e == seq!['h', 'p', 'p'] || e == seq!['c', 'c'] {
        Some("cpp"@)
    } else if e == seq!['r', 'b'] {
        Some("ruby"@)
    } else if e == seq!['m', 'd'] {
        Some("markdown"@)
    } else if e == seq!['t', 'o', 'm', 'l'] {
        Some("toml"@)
    } else if e == seq!['y', 'a', 'm', 'l'] || e == seq!['y', 'm', 'l'] {
        Some("yaml"@)
    } else if e == seq!['j', 's', 'o', 'n'] {
        Some("json"@)
    } else {
        None
    }
}

/// The language label of a path, from its extension; `None` means the file
/// is not indexed.
pub open spec fn spec_lex_language(path: Seq<char>) -> Option<Seq<char>> {
    match spec_extension(path) {
        None => None,
        Some(e) => spec_lex_label(e),
    }
}

/// The language label under which a file is indexed, or `None` to skip it.
pub fn lexical_language_of(path: &str) -> (res: Option<&'static str>)
    ensures
        match res {
            Some(l) => spec_lex_language(path@) == Some(l@),
            None => spec_lex_language(path@) is None,
        },
{
    let i = match extension_start(path) {
        None => {
            return None;
        },
        Some(i) => i,
    };
    let n = path.unicode_len();
    if range_is2(path, i, n, 'r', 's') {
        Some("rust")
    } else if range_is2(path, i, n, 'p', 'y') {
        Some("python")
    } else if range_is2(path, i, n, 't', 's') || range_is3(path, i, n, 't', 's', 'x') {
        Some("typescript")
    } else if range_is2(path, i, n, 'j', 's') || range_is3(path, i, n, 'j', 's', 'x') {
        Some("javascript")
    } else if range_is2(path, i, n, 'g', 'o') {
        Some("go")
    } else if range_is4(path, i, n, 'j', 'a', 'v', 'a') {
        Some("java")
    } else if range_is1(path, i, n, 'c') || range_is1(path, i, n, 'h') {
        Some("c")
    } else if range_is3(path, i, n, 'c', 'p', 'p') || range_is3(path, i, n, 'h', 'p', 'p')
        || range_is2(path, i, n, 'c', 'c') {
        Some("cpp")
    } else if range_is2(path, i, n, 'r', 'b') {
        Some("ruby")
    } else if range_is2(path, i, n, 'm', 'd') {
        Some("markdown")
    } else if range_is4(path, i, n, 't', 'o', 'm', 'l') {
        Some("toml")
    } else if range_is4(path, i, n, 'y', 'a', 'm', 'l') || range_is3(path, i, n, 'y', 'm', 'l') {
        Some("yaml")
    } else if range_is4(path, i, n, 'j', 's', 'o', 'n') {
        Some("json")
    } else {
        None
    }
}

/// How many lines a text has: its newline count, plus one for a final line
/// that lacks a terminator. Empty text has no lines.
pub open spec fn spec_line_count(s: Seq<u8>) -> int {
    if s.len() == 0 {
        0
    } else {
        spec_newlines(s, s.len() as int) + (if s.last() == NEWLINE {
            0int
        } else {
            1int
        })
    }
}

/// Count the lines of a text.
pub fn line_count(content: &[u8]) -> (res: usize)
    requires
        content@.len() < usize::MAX,
    ensures
        res == spec_line_count(content@),
{
    let n = content.len();
    if n == 0 {
        return 0;
    }
    proof {
        crate::text::lemma_newlines_bounds(content@, n as int);
    }
    let nl = count_newlines(content, n);
    if content[n - 1] == NEWLINE {
        nl
    } else {
        nl + 1
    }
}

/// What a file contributes to the lexical index: its language label and its
/// line count.
#[derive(Debug)]
pub struct DocumentPlan {
    pub language: String,
    pub line_count: usize,
}

/// Decide whether and how a file enters the lexical index: files whose
/// extension carries a language label are ingested with that label and
/// their line count; all others are skipped.
pub fn plan_document(path: &str, content: &[u8]) -> (res: Option<DocumentPlan>)
    requires
        content@.len() < usize::MAX,
    ensures
        match res {
            Some(p) => spec_lex_language(path@) == Some(p.language@) && p.line_count
                == spec_line_count(content@),
            None => spec_lex_language(path@) is None,
        },
{
    match lexical_language_of(path) {
        None => None,
        Some(label) => Some(
            DocumentPlan { language: label.to_owned(), line_count: line_count(content) },
        ),
    }
}

/// A ranked hit from the lexical index, annotated with matching lines.
#[derive(Debug)]
pub struct SearchResult {
    pub file_path: String,
    pub language: String,
    pub score: u64,
    pub content: Vec<u8>,
    pub matching_lines: Vec<(usize, Vec<u8>)>,
}

/// The views of a vector of byte vectors.
pub open spec fn views_of(v: Seq<Vec<u8>>) -> Seq<Seq<u8>> {
    v.map_values(|x: Vec<u8>| x@)
}

/// Position of the first newline in `s`, or `s.len()` when there is none.
pub open spec fn first_nl(s: Seq<u8>) -> int
    decreases s.len(),
{
    if s.len() == 0 {
        0
    } else if s[0] == NEWLINE {
        0
    } else {
        1 + first_nl(s.drop_first())
    }
}

/// The first newline is within bounds, nothing before it is a newline, and
/// it is a newline when within the text.
proof fn lemma_first_nl(s: Seq<u8>)
    ensures
        0 <= first_nl(s) <= s.len(),
        forall|j: int| 0 <= j < first_nl(s) ==> s[j] != NEWLINE,
        first_nl(s) < s.len() ==> s[first_nl(s)] == NEWLINE,
    decreases s.len(),
{
    if s.len() > 0 && s[0] != NEWLINE {
        lemma_first_nl(s.drop_first());
        assert forall|j: int| 0 <= j < first_nl(s) implies s[j] != NEWLINE by {
            if j > 0 {
                assert(s.drop_first()[j - 1] == s[j]);
            }
        }
        if first_nl(s) < s.len() {
            assert(s.drop_first()[first_nl(s) - 1] == s[first_nl(s)]);
        }
    }
}

/// A line as reported: its bytes with one carriage return stripped when it
/// was terminated by a newline.
pub open spec fn strip_cr(l: Seq<u8>) -> Seq<u8> {
    if l.len() > 0 && l.last() == CARRIAGE_RETURN {
        l.drop_last()
    } else {
        l
    }
}

/// The lines of a text: split at each newline, a carriage return before a
/// newline stripped, a final unterminated segment kept whole.
pub open spec fn spec_split_lines(s: Seq<u8>) -> Seq<Seq<u8>>
    decreases s.len(),
{
    if s.len() == 0 {
        Seq::empty()
    } else {
        let k = first_nl(s);
        if 0 <= k < s.len() {
            seq![strip_cr(s.subrange(0, k))] + spec_split_lines(s.subrange(k + 1, s.len() as int))
        } else {
            seq![s]
        }
    }
}

/// Split a text into its lines.
pub fn split_lines(content: &[u8]) -> (res: Vec<Vec<u8>>)
    ensures
        views_of(res@) == spec_split_lines(content@),
{
    let n = content.len();
    let mut res: Vec<Vec<u8>> = Vec::new();
    let mut pos: usize = 0;
    proof {
        assert(content@.skip(0) =~= content@);
        assert(views_of(res@) + spec_split_lines(content@) =~= spec_split_lines(content@));
    }
    while pos < n
        invariant
            pos <= n,
            n == content@.len(),
            views_of(res@) + spec_split_lines(content@.skip(pos as int)) == spec_split_lines(
                content@,
            ),
        decreases n - pos,
    {
        let ghost rest = content@.skip(pos as int);
        let mut j: usize = pos;
        while j < n && content[j] != NEWLINE
            invariant
                pos <= j <= n,
                n == content@.len(),
                forall|x: int| pos <= x < j ==> content@[x] != NEWLINE,
            decreases n - j,
        {
            j = j + 1;
        }
        proof {
            lemma_first_nl(rest);
            assert forall|x: int| 0 <= x < j - pos implies rest[x] != NEWLINE by {
                assert(rest[x] == content@[pos + x]);
            }
            if j < n {
                assert(rest[j - pos] == content@[j as int]);
                assert(first_nl(rest) == j - pos) by {
                    if first_nl(rest) < j - pos {
                        assert(rest[first_nl(rest)] == NEWLINE);
                    }
                    if first_nl(rest) > j - pos {
                        assert(rest[j - pos] != NEWLINE);
                    }
                }
            } else {
                assert(first_nl(rest) == rest.len()) by {
                    if first_nl(rest) < rest.len() {
                        assert(rest[first_nl(rest)] == NEWLINE);
                        assert(rest[first_nl(rest)] == content@[pos + first_nl(rest)]);
                    }
                }
            }
        }
        let ghost prev = res@;
        if j < n {
            let line_end = if j > pos && content[j - 1] == CARRIAGE_RETURN {
                j - 1
            } else {
                j
            };
            let line = vstd::slice::slice_to_vec(vstd::slice::slice_subrange(content, pos, line_end));
            res.push(line);
            proof {
                let k = first_nl(rest);
                let seg = rest.subrange(0, k);
                assert(seg =~= content@.subrange(pos as int, j as int));
                if j > pos && content@[j - 1] == CARRIAGE_RETURN {
                    assert(seg.last() == CARRIAGE_RETURN);
                    assert(strip_cr(seg) =~= content@.subrange(pos as int, j - 1));
                } else {
                    if seg.len() > 0 {
                        assert(seg.last() == content@[j - 1]);
                    }
                    assert(strip_cr(seg) =~= content@.subrange(pos as int, j as int));
                }
                assert(rest.subrange(k + 1, rest.len() as int) =~= content@.skip(j + 1));
                assert(spec_split_lines(rest) == seq![strip_cr(seg)] + spec_split_lines(
                    content@.skip(j + 1),
                ));
                assert(views_of(res@) =~= views_of(prev).push(line@));
                assert(views_of(res@) + spec_split_lines(content@.skip(j + 1))
                    =~= spec_split_lines(content@));
            }
            pos = j + 1;
        } else {
            let line = vstd::slice::slice_to_vec(vstd::slice::slice_subrange(content, pos, n));
            res.push(line);
            proof {
                assert(rest =~= content@.subrange(pos as int, n as int));
                assert(spec_split_lines(rest) == seq![rest]);
                assert(views_of(res@) =~= views_of(prev).push(line@));
                assert(content@.skip(n as int) =~= Seq::<u8>::empty());
                assert(spec_split_lines(Seq::<u8>::empty()) =~= Seq::<Seq<u8>>::empty());
                assert(views_of(res@) + spec_split_lines(content@.skip(n as int))
                    =~= spec_split_lines(content@));
            }
            pos = n;
        }
    }
    proof {
        assert(content@.skip(n as int) =~= Seq::<u8>::empty());
        assert(views_of(res@) + spec_split_lines(Seq::<u8>::empty()) =~= views_of(res@));
    }
    res
}

/// A text never has more lines than bytes.
proof fn lemma_split_lines_len(s: Seq<u8>)
    ensures
        spec_split_lines(s).len() <= s.len(),
    decreases s.len(),
{
    if s.len() > 0 {
        let k = first_nl(s);
        if 0 <= k < s.len() {
            lemma_split_lines_len(s.subrange(k + 1, s.len() as int));
        }
    }
}

/// Whether a byte is ASCII whitespace.
pub open spec fn spec_is_ws(b: u8) -> bool {
    b == 9 || b == 10 || b == 12 || b == 13 || b == 32
}

/// Position of the first whitespace byte in `s`, or `s.len()`.
pub open spec fn first_ws(s: Seq<u8>) -> int
    decreases s.len(),
{
    if s.len() == 0 {
        0
    } else if spec_is_ws(s[0]) {
        0
    } else {
        1 + first_ws(s.drop_first())
    }
}

/// The first whitespace is within bounds, nothing before it is whitespace,
/// and it is whitespace when within the text.
proof fn lemma_first_ws(s: Seq<u8>)
    ensures
        0 <= first_ws(s) <= s.len(),
        forall|j: int| 0 <= j < first_ws(s) ==> !spec_is_ws(s[j]),
        first_ws(s) < s.len() ==> spec_is_ws(s[first_ws(s)]),
    decreases s.len(),
{
    if s.len() > 0 && !spec_is_ws(s[0]) {
        lemma_first_ws(s.drop_first());
        assert forall|j: int| 0 <= j < first_ws(s) implies !spec_is_ws(s[j]) by {
            if j > 0 {
                assert(s.drop_first()[j - 1] == s[j]);
            }
        }
        if first_ws(s) < s.len() {
            assert(s.drop_first()[first_ws(s) - 1] == s[first_ws(s)]);
        }
    }
}

/// The whitespace-separated terms of a query: maximal runs of
/// non-whitespace bytes, in order.
pub open spec fn spec_terms(q: Seq<u8>) -> Seq<Seq<u8>>
    decreases q.len(),
{
    if q.len() == 0 {
        Seq::empty()
    } else if spec_is_ws(q[0]) {
        spec_terms(q.drop_first())
    } else {
        let k = first_ws(q);
        if 0 < k <= q.len() {
            seq![q.subrange(0, k)] + spec_terms(q.subrange(k, q.len() as int))
        } else {
            seq![q]
        }
    }
}

/// Whether a byte is ASCII whitespace.
fn byte_is_ws(b: u8) -> (res: bool)
    ensures
        res == spec_is_ws(b),
{
    b == 9 || b == 10 || b == 12 || b == 13 || b == 32
}

/// Split a query into its whitespace-separated terms.
pub fn split_terms(q: &[u8]) -> (res: Vec<Vec<u8>>)
    ensures
        views_of(res@) == spec_terms(q@),
{
    let n = q.len();
    let mut res: Vec<Vec<u8>> = Vec::new();
    let mut pos: usize = 0;
    proof {
        assert(q@.skip(0) =~= q@);
        assert(views_of(res@) + spec_terms(q@) =~= spec_terms(q@));
    }
    while pos < n
        invariant
            pos <= n,
            n == q@.len(),
            views_of(res@) + spec_terms(q@.skip(pos as int)) == spec_terms(q@),
        decreases n - pos,
    {
        if byte_is_ws(q[pos]) {
            proof {
                let rest = q@.skip(pos as int);
                assert(rest[0] == q@[pos as int]);
                assert(rest.drop_first() =~= q@.skip(pos + 1));
            }
            pos = pos + 1;
        } else {
            let ghost rest = q@.skip(pos as int);
            let mut j: usize = pos;
            while j < n && !byte_is_ws(q[j])
                invariant
                    pos <= j <= n,
                    n == q@.len(),
                    forall|x: int| pos <= x < j ==> !spec_is_ws(q@[x]),
                decreases n - j,
            {
                j = j + 1;
            }
            proof {
                lemma_first_ws(rest);
                assert forall|x: int| 0 <= x < j - pos implies !spec_is_ws(rest[x]) by {
                    assert(rest[x] == q@[pos + x]);
                }
                if j < n {
                    assert(rest[j - pos] == q@[j as int]);
                    assert(first_ws(rest) == j - pos) by {
                        if first_ws(rest) < j - pos {
                            assert(spec_is_ws(rest[first_ws(rest)]));
                        }
                        if first_ws(rest) > j - pos {
                            assert(!spec_is_ws(rest[j - pos]));
                        }
                    }
                } else {
                    assert(first_ws(rest) == rest.len()) by {
                        if first_ws(rest) < rest.len() {
                            assert(spec_is_ws(rest[first_ws(rest)]));
                            assert(rest[first_ws(rest)] == q@[pos + first_ws(rest)]);
                        }
                    }
                }
            }
            let ghost prev = res@;
            let term = vstd::slice::slice_to_vec(vstd::slice::slice_subrange(q, pos, j));
            res.push(term);
            proof {
                let k = first_ws(rest);
                assert(rest[0] == q@[pos as int]);
                assert(!spec_is_ws(rest[0]));
                assert(k == j - pos);
                assert(0 < k <= rest.len());
                assert(rest.subrange(0, k) =~= q@.subrange(pos as int, j as int));
                assert(rest.subrange(k, rest.len() as int) =~= q@.skip(j as int));
                assert(spec_terms(rest) == seq![rest.subrange(0, k)] + spec_terms(
                    q@.skip(j as int),
                ));
                assert(views_of(res@) =~= views_of(prev).push(term@));
                assert(views_of(res@) + spec_terms(q@.skip(j as int)) =~= spec_terms(q@));
            }
            pos = j;
        }
    }
    proof {
        assert(q@.skip(n as int) =~= Seq::<u8>::empty());
        assert(views_of(res@) + spec_terms(Seq::<u8>::empty()) =~= views_of(res@));
    }
    res
}

/// Whether a line matches: its lower-case folding contains some term.
pub open spec fn spec_line_matches(line: Seq<u8>, terms: Seq<Seq<u8>>) -> bool {
    exists|t: int| 0 <= t < terms.len() && spec_contains_sub(lower_of(line), #[trigger] terms[t])
}

/// Check one line against the terms.
fn line_matches(line: &Vec<u8>, terms: &Vec<Vec<u8>>) -> (res: bool)
    ensures
        res == spec_line_matches(line@, views_of(terms@)),
{
    let low = unicode_lowercase(line.as_slice());
    let n = terms.len();
    let mut t: usize = 0;
    while t < n
        invariant
            t <= n,
            n == terms@.len(),
            low@ == lower_of(line@),
            forall|x: int| 0 <= x < t ==> !spec_contains_sub(lower_of(line@), views_of(terms@)[x]),
        decreases n - t,
    {
        if contains_sub(low.as_slice(), terms[t].as_slice()) {
            proof {
                assert(views_of(terms@)[t as int] == terms@[t as int]@);
            }
            return true;
        }
        proof {
            assert(views_of(terms@)[t as int] == terms@[t as int]@);
        }
        t = t + 1;
    }
    false
}

/// How many of the first `upto` lines match.
pub open spec fn spec_match_count(lines: Seq<Seq<u8>>, terms: Seq<Seq<u8>>, upto: int) -> int
    decreases upto,
{
    if upto <= 0 {
        0
    } else {
        spec_match_count(lines, terms, upto - 1) + if 0 <= upto - 1 < lines.len()
            && spec_line_matches(lines[upto - 1], terms) {
            1int
        } else {
            0int
        }
    }
}

/// Match counts lie between zero and the number of lines seen.
proof fn lemma_match_count_bounds(lines: Seq<Seq<u8>>, terms: Seq<Seq<u8>>, upto: int)
    ensures
        0 <= spec_match_count(lines, terms, upto) <= (if upto >= 0 {
            upto
        } else {
            0
        }),
    decreases (if upto >= 0 { upto } else { 0 }),
{
    if upto > 0 {
        lemma_match_count_bounds(lines, terms, upto - 1);
    }
}

/// Match counts never decrease along the lines.
proof fn lemma_match_count_mono(lines: Seq<Seq<u8>>, terms: Seq<Seq<u8>>, a: int, b: int)
    requires
        a <= b,
    ensures
        spec_match_count(lines, terms, a) <= spec_match_count(lines, terms, b),
    decreases b - a,
{
    if a < b {
        lemma_match_count_mono(lines, terms, a, b - 1);
    }
}

/// Scan a stored document for the lines matching a query: the document is
/// split into lines, the query's lower-cased whitespace-separated terms are
/// matched against each lower-cased line, and the first `MAX_MATCH_LINES`
/// matching lines are reported with their 1-indexed line numbers.
///
/// Case folding is the full Unicode one, through the named result
/// `lower_of` of the standard lower-casing: each line and the query are
/// folded before comparison, so letters of any script match their
/// lower-case forms.
pub fn find_matching_lines(content: &[u8], query: &[u8]) -> (res: Vec<(usize, Vec<u8>)>)
    requires
        content@.len() < usize::MAX,
    ensures
        ({
            let lines = spec_split_lines(content@);
            let terms = spec_terms(lower_of(query@));
            let total = spec_match_count(lines, terms, lines.len() as int);
            &&& res@.len() == (if total <= MAX_MATCH_LINES {
                total
            } else {
                MAX_MATCH_LINES as int
            })
            &&& forall|j: int|
                0 <= j < lines.len() && spec_line_matches(#[trigger] lines[j], terms)
                    && spec_match_count(lines, terms, j) < MAX_MATCH_LINES ==> {
                    let out = res@[spec_match_count(lines, terms, j)];
                    out.0 == j + 1 && out.1@ == lines[j]
                }
        }),
{
    let lines = split_lines(content);
    let lowq = unicode_lowercase(query);
    let terms = split_terms(lowq.as_slice());
    let ghost lns = spec_split_lines(content@);
    let ghost tms = spec_terms(lower_of(query@));
    let n = lines.len();
    proof {
        assert(views_of(lines@) == lns);
        assert(views_of(terms@) == tms);
        assert(lns.len() == n);
        lemma_split_lines_len(content@);
    }
    let mut res: Vec<(usize, Vec<u8>)> = Vec::new();
    let mut i: usize = 0;
    while i < n
        invariant
            i <= n,
            n == lines@.len(),
            n == lns.len(),
            n < usize::MAX,
            views_of(lines@) == lns,
            views_of(terms@) == tms,
            res@.len() == (if spec_match_count(lns, tms, i as int) <= MAX_MATCH_LINES {
                spec_match_count(lns, tms, i as int)
            } else {
                MAX_MATCH_LINES as int
            }),
            forall|j: int|
                0 <= j < i && spec_line_matches(#[trigger] lns[j], tms) && spec_match_count(
                    lns,
                    tms,
                    j,
                ) < MAX_MATCH_LINES ==> {
                    let out = res@[spec_match_count(lns, tms, j)];
                    out.0 == j + 1 && out.1@ == lns[j]
                },
        decreases n - i,
    {
        proof {
            lemma_match_count_bounds(lns, tms, i as int);
            assert(views_of(lines@)[i as int] == lines@[i as int]@);
        }
        let matched = line_matches(&lines[i], &terms);
        if matched && res.len() < MAX_MATCH_LINES {
            let ghost prev = res@;
            let line_copy = crate::chunker::clone_bytes(&lines[i]);
            res.push((i + 1, line_copy));
            proof {
                assert forall|j: int|
                    0 <= j < i + 1 && spec_line_matches(#[trigger] lns[j], tms)
                        && spec_match_count(lns, tms, j) < MAX_MATCH_LINES implies {
                    let out = res@[spec_match_count(lns, tms, j)];
                    out.0 == j + 1 && out.1@ == lns[j]
                } by {
                    lemma_match_count_bounds(lns, tms, j);
                    if j < i {
                        lemma_match_count_mono(lns, tms, j + 1, i as int);
                        assert(res@[spec_match_count(lns, tms, j)] == prev[spec_match_count(
                            lns,
                            tms,
                            j,
                        )]);
                    } else {
                        assert(spec_match_count(lns, tms, j) == prev.len());
                    }
                }
            }
        } else {
            proof {
                if matched {
                    lemma_match_count_bounds(lns, tms, i as int);
                } else {
                    assert(!spec_line_matches(lns[i as int], tms));
                }
            }
        }
        i = i + 1;
    }
    res
}

} // verus!
