//! Hybrid ranking: fusing a lexical and a semantic result list.
//!
//! Scores are fixed-point numbers in millionths (`SCORE_SCALE` units equal
//! 1.0), which keeps every fusion step exact and checkable. Two modes fuse
//! the lists: reciprocal rank fusion, where the result at rank `i`
//! contributes `1/(k + i + 1)` weighted by `alpha` (lexical) or `1 - alpha`
//! (semantic), and linear fusion over min-max normalized scores. Documents
//! are keyed by file path; a document in both lists accumulates both
//! contributions. The fused list is sorted by score, best first, and cut to
//! the requested limit.

use vstd::prelude::*;

verus! {

use vstd::arithmetic::div_mod::{lemma_div_is_ordered, lemma_div_pos_is_pos};
use vstd::arithmetic::mul::lemma_mul_inequality;

/// One whole unit of score or weight, in millionths.
pub const SCORE_SCALE: u64 = 1_000_000;

/// Largest accepted reciprocal-rank constant.
pub const MAX_RRF_K: u64 = 1_000_000_000;

/// Largest accepted input list length for fusion.
pub const MAX_FUSE_INPUT: usize = 1_000_000_000;

/// Largest accepted raw score handed to min-max normalization.
pub const MAX_RAW_SCORE: u64 = 1_000_000_000_000;

/// Where a result came from.
#[derive(Debug, Clone, Copy, PartialEq, Eq, Structural)]
pub enum SearchSource {
    Lexical,
    Semantic,
    Hybrid,
}

/// A result from either search source, with its score in millionths.
#[derive(Debug)]
pub struct RankedResult {
    pub file_path: String,
    pub score: u64,
    pub source: SearchSource,
    pub start_line: usize,
    pub end_line: usize,
    pub content_preview: String,
    pub name: Option<String>,
}

impl Clone for RankedResult {
    fn clone(&self) -> (res: Self)
        ensures
            res == *self,
    {
        RankedResult {
            file_path: self.file_path.clone(),
            score: self.score,
            source: self.source,
            start_line: self.start_line,
            end_line: self.end_line,
            content_preview: self.content_preview.clone(),
            name: match &self.name {
                None => None,
                Some(s) => Some(s.clone()),
            },
        }
    }
}

/// Configuration for hybrid ranking. `alpha` is the lexical weight in
/// millionths; the semantic weight is `SCORE_SCALE - alpha`.
#[derive(Debug, Clone, Copy, PartialEq, Eq, Structural)]
pub struct HybridConfig {
    pub alpha: u64,
    pub rrf_k: u64,
    pub use_rrf: bool,
}

impl Default for HybridConfig {
    /// Equal weight to both lists, the standard reciprocal-rank constant,
    /// and reciprocal rank fusion.
    fn default() -> (res: Self)
        ensures
            res.alpha == SCORE_SCALE / 2,
            res.rrf_k == 60,
            res.use_rrf,
    {
        HybridConfig { alpha: 500_000, rrf_k: 60, use_rrf: true }
    }
}

/// A configuration the ranker accepts: the lexical weight is at most one
/// whole unit and the rank constant is within range.
pub open spec fn config_wf(cfg: HybridConfig) -> bool {
    cfg.alpha <= SCORE_SCALE && cfg.rrf_k <= MAX_RRF_K
}

/// Hybrid ranker that fuses lexical and semantic results.
pub struct HybridRanker {
    config: HybridConfig,
}

/// The paths of a result list, in order.
pub open spec fn paths_of(rs: Seq<RankedResult>) -> Seq<Seq<char>> {
    rs.map_values(|r: RankedResult| r.file_path@)
}

/// The scores of a result list, in order, as integers.
pub open spec fn scores_of(rs: Seq<RankedResult>) -> Seq<int> {
    rs.map_values(|r: RankedResult| r.score as int)
}

/// A byte-for-byte copy of a sequence of scores into integers.
pub open spec fn ints_of(s: Seq<u64>) -> Seq<int> {
    s.map_values(|c: u64| c as int)
}

/// The sum of `contribs[i]` over the positions `i < upto` where `paths[i]`
/// is `key`.
pub open spec fn spec_keyed_sum(
    paths: Seq<Seq<char>>,
    contribs: Seq<int>,
    key: Seq<char>,
    upto: int,
) -> int
    decreases upto,
{
    if upto <= 0 {
        0
    } else {
        spec_keyed_sum(paths, contribs, key, upto - 1) + if 0 <= upto - 1 < paths.len() && paths[
            upto - 1] == key {
            contribs[upto - 1]
        } else {
            0
        }
    }
}

/// The reciprocal-rank contribution, in millionths, of rank `rank` under
/// weight `w` (also in millionths): `w · (1/(k + rank + 1))`, each step in
/// truncating fixed-point arithmetic.
pub open spec fn spec_rrf_contrib(k: int, rank: int, w: int) -> int {
    (w * ((SCORE_SCALE as int) / (k + rank + 1))) / (SCORE_SCALE as int)
}

/// The reciprocal-rank contributions of a list of length `len`.
pub open spec fn spec_rrf_contribs(len: int, k: int, w: int) -> Seq<int> {
    Seq::new(len as nat, |i: int| spec_rrf_contrib(k, i, w))
}

/// The least element of a non-empty sequence.
pub open spec fn seq_min(s: Seq<int>) -> int
    recommends
        s.len() > 0,
    decreases s.len(),
{
    if s.len() <= 1 {
        s[0]
    } else {
        let m = seq_min(s.drop_last());
        if s.last() < m {
            s.last()
        } else {
            m
        }
    }
}

/// The greatest element of a non-empty sequence.
pub open spec fn seq_max(s: Seq<int>) -> int
    recommends
        s.len() > 0,
    decreases s.len(),
{
    if s.len() <= 1 {
        s[0]
    } else {
        let m = seq_max(s.drop_last());
        if s.last() > m {
            s.last()
        } else {
            m
        }
    }
}

/// Min-max normalization of a score list into `[0, SCORE_SCALE]`: each score
/// becomes `(s - min)·SCORE_SCALE/(max - min)`; a list whose scores are all
/// equal (or empty) maps to all `SCORE_SCALE`.
pub open spec fn spec_normalize(s: Seq<int>) -> Seq<int> {
    if s.len() == 0 {
        s
    } else {
        let mn = seq_min(s);
        let mx = seq_max(s);
        if mx <= mn {
            Seq::new(s.len(), |i: int| SCORE_SCALE as int)
        } else {
            Seq::new(s.len(), |i: int| (s[i] - mn) * (SCORE_SCALE as int) / (mx - mn))
        }
    }
}

/// The linear-fusion contributions of a score list under weight `w`:
/// normalized scores, weighted and brought back to millionths.
pub open spec fn spec_lin_contribs(scores: Seq<int>, w: int) -> Seq<int> {
    spec_normalize(scores).map_values(|x: int| w * x / (SCORE_SCALE as int))
}

/// Per-rank contributions of one input list under the given mode and weight.
pub open spec fn spec_contribs(list: Seq<RankedResult>, cfg: HybridConfig, w: int) -> Seq<int> {
    if cfg.use_rrf {
        spec_rrf_contribs(list.len() as int, cfg.rrf_k as int, w)
    } else {
        spec_lin_contribs(scores_of(list), w)
    }
}

/// What one input list adds to the fused score of `key`.
pub open spec fn spec_list_score(
    list: Seq<RankedResult>,
    cfg: HybridConfig,
    w: int,
    key: Seq<char>,
) -> int {
    spec_keyed_sum(paths_of(list), spec_contribs(list, cfg, w), key, list.len() as int)
}

/// The fused score of the document keyed by `key`: the lexical list weighted
/// by `alpha` plus the semantic list weighted by `SCORE_SCALE - alpha`.
pub open spec fn spec_fused_score(
    lex: Seq<RankedResult>,
    sem: Seq<RankedResult>,
    cfg: HybridConfig,
    key: Seq<char>,
) -> int {
    spec_list_score(lex, cfg, cfg.alpha as int, key) + spec_list_score(
        sem,
        cfg,
        SCORE_SCALE as int - cfg.alpha as int,
        key,
    )
}

/// No two results share a path.
pub open spec fn distinct_keys(rs: Seq<RankedResult>) -> bool {
    forall|i: int, j: int| 0 <= i < j < rs.len() ==> rs[i].file_path@ != rs[j].file_path@
}

/// Some result carries path `p`.
pub open spec fn key_in(rs: Seq<RankedResult>, p: Seq<char>) -> bool {
    exists|i: int| 0 <= i < rs.len() && rs[i].file_path@ == p
}

/// `a` and `b` agree on everything but score and source.
pub open spec fn same_record(a: RankedResult, b: RankedResult) -> bool {
    a.file_path == b.file_path && a.start_line == b.start_line && a.end_line == b.end_line
        && a.content_preview == b.content_preview && a.name == b.name
}

/// The first position carrying `key` among `paths`, or `paths.len()` when
/// there is none.
pub open spec fn spec_first_index(paths: Seq<Seq<char>>, key: Seq<char>) -> int
    decreases paths.len(),
{
    if paths.len() == 0 {
        0
    } else if paths[0] == key {
        0
    } else {
        1 + spec_first_index(paths.drop_first(), key)
    }
}

/// The first index is within bounds, nothing before it carries the key, and
/// it carries the key when within the list.
proof fn lemma_first_index(paths: Seq<Seq<char>>, key: Seq<char>)
    ensures
        0 <= spec_first_index(paths, key) <= paths.len(),
        forall|j: int| 0 <= j < spec_first_index(paths, key) ==> paths[j] != key,
        spec_first_index(paths, key) < paths.len() ==> paths[spec_first_index(paths, key)] == key,
    decreases paths.len(),
{
    if paths.len() > 0 && paths[0] != key {
        lemma_first_index(paths.drop_first(), key);
        assert forall|j: int| 0 <= j < spec_first_index(paths, key) implies paths[j] != key by {
            if j > 0 {
                assert(paths.drop_first()[j - 1] == paths[j]);
            }
        }
        if spec_first_index(paths, key) < paths.len() {
            assert(paths.drop_first()[spec_first_index(paths, key) - 1] == paths[spec_first_index(
                paths,
                key,
            )]);
        }
    }
}

/// A key's first index is the position of its earliest occurrence.
proof fn lemma_first_index_at(paths: Seq<Seq<char>>, key: Seq<char>, r: int)
    requires
        0 <= r < paths.len(),
        paths[r] == key,
        forall|x: int| 0 <= x < r ==> paths[x] != key,
    ensures
        spec_first_index(paths, key) == r,
{
    lemma_first_index(paths, key);
    if spec_first_index(paths, key) < r {
        assert(paths[spec_first_index(paths, key)] == key);
    }
}

/// The record `r` retains per the fusion rule: the lexical list is processed
/// first, and a path keeps the record of its first occurrence there; a path
/// only in the semantic list keeps its first semantic record.
pub open spec fn record_retained(r: RankedResult, lex: Seq<RankedResult>, sem: Seq<RankedResult>) -> bool {
    if key_in(lex, r.file_path@) {
        same_record(r, lex[spec_first_index(paths_of(lex), r.file_path@)])
    } else if key_in(sem, r.file_path@) {
        same_record(r, sem[spec_first_index(paths_of(sem), r.file_path@)])
    } else {
        false
    }
}

/// Whether the document keyed `p` entered the fused ranking before the one
/// keyed `q`: lexical paths come first, in first-occurrence order, then the
/// remaining semantic paths, in first-occurrence order. Ties in the fused
/// score break by this order.
pub open spec fn spec_inserted_before(
    lex: Seq<RankedResult>,
    sem: Seq<RankedResult>,
    p: Seq<char>,
    q: Seq<char>,
) -> bool {
    if key_in(lex, p) && key_in(lex, q) {
        spec_first_index(paths_of(lex), p) < spec_first_index(paths_of(lex), q)
    } else if key_in(lex, p) {
        true
    } else if key_in(lex, q) {
        false
    } else {
        spec_first_index(paths_of(sem), p) < spec_first_index(paths_of(sem), q)
    }
}

/// The position of `e` in `s`; meaningful when `e` occurs exactly once.
pub open spec fn pos_of(s: Seq<RankedResult>, e: RankedResult) -> int {
    choose|i: int| 0 <= i < s.len() && s[i] == e
}

/// Under distinct paths, an element's position is its own index.
proof fn lemma_pos_of(s: Seq<RankedResult>, i: int)
    requires
        distinct_keys(s),
        0 <= i < s.len(),
    ensures
        pos_of(s, s[i]) == i,
{
    assert(0 <= i < s.len() && s[i] == s[i]);
    let w = pos_of(s, s[i]);
    assert(0 <= w < s.len() && s[w] == s[i]);
    if w != i {
        assert(s[w].file_path@ != s[i].file_path@ || s[i].file_path@ != s[w].file_path@);
    }
}

/// Scores never increase along the list.
pub open spec fn sorted_desc(rs: Seq<RankedResult>) -> bool {
    forall|i: int, j: int| 0 <= i <= j < rs.len() ==> rs[i].score >= rs[j].score
}

/// `x` occurs in `b`.
pub open spec fn seq_contains(b: Seq<RankedResult>, x: RankedResult) -> bool {
    exists|j: int| 0 <= j < b.len() && #[trigger] b[j] == x
}

/// Every element of `a` occurs in `b`.
pub open spec fn contains_all(a: Seq<RankedResult>, b: Seq<RankedResult>) -> bool {
    forall|i: int| 0 <= i < a.len() ==> seq_contains(b, #[trigger] a[i])
}

/// `a` and `b` hold the same elements (up to multiplicity).
pub open spec fn same_elements(a: Seq<RankedResult>, b: Seq<RankedResult>) -> bool {
    a.len() == b.len() && contains_all(a, b) && contains_all(b, a)
}

/// The score that position `j` starts from: its score in `base` when `j`
/// lies within `base`, and zero for positions appended later.
pub open spec fn base_score(base: Seq<RankedResult>, j: int) -> int {
    if 0 <= j < base.len() {
        base[j].score as int
    } else {
        0
    }
}

/// A keyed sum over contributions within `[0, SCORE_SCALE]` stays within
/// `[0, upto · SCORE_SCALE]`.
proof fn lemma_keyed_sum_bounds(paths: Seq<Seq<char>>, contribs: Seq<int>, key: Seq<char>, upto: int)
    requires
        forall|i: int| 0 <= i < contribs.len() ==> 0 <= #[trigger] contribs[i] <= SCORE_SCALE as int,
        contribs.len() == paths.len(),
        upto <= paths.len(),
    ensures
        0 <= spec_keyed_sum(paths, contribs, key, upto) <= (if upto >= 0 {
            upto
        } else {
            0
        }) * (SCORE_SCALE as int),
    decreases (if upto >= 0 { upto } else { 0 }),
{
    if upto > 0 {
        lemma_keyed_sum_bounds(paths, contribs, key, upto - 1);
    }
}

/// A key that never occurs in the prefix contributes nothing.
proof fn lemma_keyed_sum_absent(paths: Seq<Seq<char>>, contribs: Seq<int>, key: Seq<char>, upto: int)
    requires
        forall|i: int| 0 <= i < upto ==> paths[i] != key,
    ensures
        spec_keyed_sum(paths, contribs, key, upto) == 0,
    decreases (if upto >= 0 { upto } else { 0 }),
{
    if upto > 0 {
        lemma_keyed_sum_absent(paths, contribs, key, upto - 1);
    }
}

/// The index of the result carrying `path`, if one exists.
fn find_key(acc: &Vec<RankedResult>, path: &String) -> (res: Option<usize>)
    ensures
        match res {
            Some(i) => 0 <= i < acc@.len() && acc@[i as int].file_path@ == path@,
            None => !key_in(acc@, path@),
        },
{
    let n = acc.len();
    let mut i: usize = 0;
    while i < n
        invariant
            i <= n,
            n == acc@.len(),
            forall|j: int| 0 <= j < i ==> acc@[j].file_path@ != path@,
        decreases n - i,
    {
        if acc[i].file_path == *path {
            return Some(i);
        }
        i = i + 1;
    }
    None
}

/// Fold one input list into the accumulator: each result adds its rank's
/// contribution to the entry keyed by its path, creating the entry (with the
/// result's record fields, source `Hybrid`) on first sight of the path.
fn accumulate(acc: &mut Vec<RankedResult>, list: &Vec<RankedResult>, contribs: &Vec<u64>)
    requires
        contribs@.len() == list@.len(),
        list@.len() <= MAX_FUSE_INPUT,
        forall|i: int| 0 <= i < contribs@.len() ==> #[trigger] contribs@[i] <= SCORE_SCALE,
        distinct_keys(old(acc)@),
        forall|j: int|
            0 <= j < old(acc)@.len() ==> #[trigger] old(acc)@[j].score as int + (SCORE_SCALE as int)
                * (list@.len() as int) <= u64::MAX as int,
    ensures
        distinct_keys(final(acc)@),
        final(acc)@.len() >= old(acc)@.len(),
        forall|j: int|
            0 <= j < old(acc)@.len() ==> same_record(#[trigger] final(acc)@[j], old(acc)@[j])
                && final(acc)@[j].source == old(acc)@[j].source,
        forall|j: int|
            0 <= j < final(acc)@.len() ==> #[trigger] final(acc)@[j].score as int == base_score(
                old(acc)@,
                j,
            ) + spec_keyed_sum(
                paths_of(list@),
                ints_of(contribs@),
                final(acc)@[j].file_path@,
                list@.len() as int,
            ),
        forall|j: int|
            old(acc)@.len() <= j < final(acc)@.len() ==> ({
                let fi = spec_first_index(paths_of(list@), (#[trigger] final(acc)@[j]).file_path@);
                0 <= fi < list@.len() && same_record(final(acc)@[j], list@[fi])
            }) && final(acc)@[j].source == SearchSource::Hybrid,
        forall|j1: int, j2: int|
            old(acc)@.len() <= j1 < j2 < final(acc)@.len() ==> spec_first_index(
                paths_of(list@),
                #[trigger] final(acc)@[j1].file_path@,
            ) < spec_first_index(paths_of(list@), #[trigger] final(acc)@[j2].file_path@),
        forall|r: int| 0 <= r < list@.len() ==> key_in(final(acc)@, #[trigger] list@[r].file_path@),
        forall|p: Seq<char>|
            #[trigger] key_in(final(acc)@, p) ==> key_in(old(acc)@, p) || key_in(list@, p),
{
    let ghost base = acc@;
    let ghost paths = paths_of(list@);
    let ghost cs = ints_of(contribs@);
    let n = list.len();
    let mut r: usize = 0;
    while r < n
        invariant
            r <= n,
            n == list@.len(),
            contribs@.len() == list@.len(),
            list@.len() <= MAX_FUSE_INPUT,
            paths == paths_of(list@),
            cs == ints_of(contribs@),
            forall|i: int| 0 <= i < contribs@.len() ==> #[trigger] contribs@[i] <= SCORE_SCALE,
            distinct_keys(base),
            forall|j: int|
                0 <= j < base.len() ==> #[trigger] base[j].score as int + (SCORE_SCALE as int) * (
                list@.len() as int) <= u64::MAX as int,
            acc@.len() >= base.len(),
            distinct_keys(acc@),
            forall|j: int|
                0 <= j < base.len() ==> same_record(#[trigger] acc@[j], base[j]) && acc@[j].source
                    == base[j].source,
            forall|j: int|
                0 <= j < acc@.len() ==> #[trigger] acc@[j].score as int == base_score(base, j)
                    + spec_keyed_sum(paths, cs, acc@[j].file_path@, r as int),
            forall|j: int|
                base.len() <= j < acc@.len() ==> ({
                    let fi = spec_first_index(paths, (#[trigger] acc@[j]).file_path@);
                    0 <= fi < r && same_record(acc@[j], list@[fi])
                }) && acc@[j].source == SearchSource::Hybrid,
            forall|j1: int, j2: int|
                base.len() <= j1 < j2 < acc@.len() ==> spec_first_index(
                    paths,
                    #[trigger] acc@[j1].file_path@,
                ) < spec_first_index(paths, #[trigger] acc@[j2].file_path@),
            forall|q: int| 0 <= q < r ==> key_in(acc@, #[trigger] list@[q].file_path@),
            forall|p: Seq<char>| #[trigger] key_in(acc@, p) ==> key_in(base, p) || key_in(list@, p),
        decreases n - r,
    {
        let c = contribs[r];
        proof {
            assert(paths[r as int] == list@[r as int].file_path@);
            assert(cs[r as int] == contribs@[r as int] as int);
        }
        match find_key(acc, &list[r].file_path) {
            Some(j) => {
                let ghost prev = acc@;
                let ghost key = prev[j as int].file_path@;
                proof {
                    lemma_keyed_sum_bounds(paths, cs, key, r as int);
                    assert(base_score(base, j as int) >= 0);
                    if (j as int) < base.len() {
                        assert(base[j as int].score as int + (SCORE_SCALE as int) * (
                        list@.len() as int) <= u64::MAX as int);
                        assert((r as int + 1) * (SCORE_SCALE as int) <= (list@.len() as int) * (
                        SCORE_SCALE as int)) by {
                            lemma_mul_inequality(r as int + 1, list@.len() as int, SCORE_SCALE as int);
                        }
                    } else {
                        assert((r as int + 1) * (SCORE_SCALE as int) <= (list@.len() as int) * (
                        SCORE_SCALE as int)) by {
                            lemma_mul_inequality(r as int + 1, list@.len() as int, SCORE_SCALE as int);
                        }
                        assert((SCORE_SCALE as int) * (list@.len() as int) <= u64::MAX as int) by {
                            lemma_mul_inequality(
                                list@.len() as int,
                                MAX_FUSE_INPUT as int,
                                SCORE_SCALE as int,
                            );
                        }
                    }
                }
                let mut e = acc[j].clone();
                e.score = e.score + c;
                acc[j] = e;
                proof {
                    assert(acc@ =~= prev.update(j as int, acc@[j as int]));
                    assert forall|jj: int| 0 <= jj < acc@.len() implies #[trigger] acc@[jj].score as int
                        == base_score(base, jj) + spec_keyed_sum(
                        paths,
                        cs,
                        acc@[jj].file_path@,
                        r as int + 1,
                    ) by {
                        if jj == j as int {
                            assert(acc@[jj].file_path@ == key);
                            assert(paths[r as int] == key);
                        } else {
                            assert(acc@[jj] == prev[jj]);
                            assert(acc@[jj].file_path@ != key) by {
                                if jj < j as int {
                                    assert(prev[jj].file_path@ != prev[j as int].file_path@);
                                } else {
                                    assert(prev[j as int].file_path@ != prev[jj].file_path@);
                                }
                            }
                            assert(paths[r as int] != acc@[jj].file_path@);
                        }
                    }
                    assert forall|q: int| 0 <= q < r + 1 implies key_in(
                        acc@,
                        #[trigger] list@[q].file_path@,
                    ) by {
                        if q < r {
                            let i = choose|i: int|
                                0 <= i < prev.len() && prev[i].file_path@ == list@[q].file_path@;
                            assert(acc@[i].file_path@ == list@[q].file_path@);
                        } else {
                            assert(acc@[j as int].file_path@ == list@[r as int].file_path@);
                        }
                    }
                    assert forall|p: Seq<char>| #[trigger] key_in(acc@, p) implies key_in(base, p)
                        || key_in(list@, p) by {
                        let i = choose|i: int| 0 <= i < acc@.len() && acc@[i].file_path@ == p;
                        assert(prev[i].file_path@ == p);
                        assert(key_in(prev, p));
                    }
                    assert forall|jj: int|
                        base.len() <= jj < acc@.len() implies ({
                        let fi = spec_first_index(paths, (#[trigger] acc@[jj]).file_path@);
                        0 <= fi < r + 1 && same_record(acc@[jj], list@[fi])
                    }) && acc@[jj].source == SearchSource::Hybrid by {
                        if jj == j as int {
                            assert(same_record(acc@[jj], prev[jj]));
                            assert(acc@[jj].file_path@ == prev[jj].file_path@);
                            let fi = spec_first_index(paths, prev[jj].file_path@);
                            assert(same_record(prev[jj], list@[fi]));
                        } else {
                            assert(acc@[jj] == prev[jj]);
                        }
                    }
                    assert forall|j1: int, j2: int|
                        base.len() <= j1 < j2 < acc@.len() implies spec_first_index(
                        paths,
                        #[trigger] acc@[j1].file_path@,
                    ) < spec_first_index(paths, #[trigger] acc@[j2].file_path@) by {
                        assert(acc@[j1].file_path@ == prev[j1].file_path@);
                        assert(acc@[j2].file_path@ == prev[j2].file_path@);
                    }
                }
            },
            None => {
                let ghost prev = acc@;
                let ghost key = list@[r as int].file_path@;
                let mut e = list[r].clone();
                e.score = c;
                e.source = SearchSource::Hybrid;
                acc.push(e);
                proof {
                    assert forall|q: int| 0 <= q < r implies paths[q] != key by {
                        assert(key_in(prev, list@[q].file_path@));
                        assert(!key_in(prev, key));
                        assert(paths[q] == list@[q].file_path@);
                    }
                    lemma_keyed_sum_absent(paths, cs, key, r as int);
                    assert forall|jj: int| 0 <= jj < acc@.len() implies #[trigger] acc@[jj].score as int
                        == base_score(base, jj) + spec_keyed_sum(
                        paths,
                        cs,
                        acc@[jj].file_path@,
                        r as int + 1,
                    ) by {
                        if jj == acc@.len() - 1 {
                            assert(acc@[jj].file_path@ == key);
                            assert(acc@[jj].score == c);
                            assert(base_score(base, jj) == 0);
                        } else {
                            assert(acc@[jj] == prev[jj]);
                            assert(acc@[jj].file_path@ != key);
                        }
                    }
                    assert(distinct_keys(acc@)) by {
                        assert forall|x: int, y: int|
                            0 <= x < y < acc@.len() implies acc@[x].file_path@
                            != acc@[y].file_path@ by {
                            if y == acc@.len() - 1 {
                                assert(acc@[x] == prev[x]);
                                assert(!key_in(prev, key));
                            } else {
                                assert(acc@[x] == prev[x]);
                                assert(acc@[y] == prev[y]);
                            }
                        }
                    }
                    lemma_first_index_at(paths, key, r as int);
                    assert(same_record(acc@[acc@.len() - 1], list@[r as int]));
                    assert forall|jj: int|
                        base.len() <= jj < acc@.len() implies ({
                        let fi = spec_first_index(paths, (#[trigger] acc@[jj]).file_path@);
                        0 <= fi < r + 1 && same_record(acc@[jj], list@[fi])
                    }) && acc@[jj].source == SearchSource::Hybrid by {
                        if jj < acc@.len() - 1 {
                            assert(acc@[jj] == prev[jj]);
                        } else {
                            assert(acc@[jj].file_path@ == key);
                            assert(spec_first_index(paths, key) == r);
                        }
                    }
                    assert forall|j1: int, j2: int|
                        base.len() <= j1 < j2 < acc@.len() implies spec_first_index(
                        paths,
                        #[trigger] acc@[j1].file_path@,
                    ) < spec_first_index(paths, #[trigger] acc@[j2].file_path@) by {
                        if j2 == acc@.len() - 1 {
                            assert(acc@[j1] == prev[j1]);
                            assert(acc@[j2].file_path@ == key);
                        } else {
                            assert(acc@[j1] == prev[j1]);
                            assert(acc@[j2] == prev[j2]);
                        }
                    }
                    assert forall|q: int| 0 <= q < r + 1 implies key_in(
                        acc@,
                        #[trigger] list@[q].file_path@,
                    ) by {
                        if q < r {
                            let i = choose|i: int|
                                0 <= i < prev.len() && prev[i].file_path@ == list@[q].file_path@;
                            assert(acc@[i].file_path@ == list@[q].file_path@);
                        } else {
                            assert(acc@[acc@.len() - 1].file_path@ == list@[r as int].file_path@);
                        }
                    }
                    assert forall|p: Seq<char>| #[trigger] key_in(acc@, p) implies key_in(base, p)
                        || key_in(list@, p) by {
                        let i = choose|i: int| 0 <= i < acc@.len() && acc@[i].file_path@ == p;
                        if i < acc@.len() - 1 {
                            assert(prev[i].file_path@ == p);
                            assert(key_in(prev, p));
                        } else {
                            assert(list@[r as int].file_path@ == p);
                            assert(key_in(list@, p));
                        }
                    }
                }
            },
        }
        r = r + 1;
    }
}

/// The least element bounds every element from below and is attained.
proof fn lemma_seq_min(s: Seq<int>)
    requires
        s.len() > 0,
    ensures
        forall|i: int| 0 <= i < s.len() ==> seq_min(s) <= #[trigger] s[i],
        exists|i: int| 0 <= i < s.len() && seq_min(s) == #[trigger] s[i],
    decreases s.len(),
{
    if s.len() > 1 {
        lemma_seq_min(s.drop_last());
        assert forall|i: int| 0 <= i < s.len() implies seq_min(s) <= #[trigger] s[i] by {
            if i < s.len() - 1 {
                assert(s.drop_last()[i] == s[i]);
            }
        }
        if seq_min(s) == s.last() {
            assert(seq_min(s) == s[s.len() - 1]);
        } else {
            let w = choose|i: int|
                0 <= i < s.drop_last().len() && seq_min(s.drop_last()) == s.drop_last()[i];
            assert(s[w] == s.drop_last()[w]);
            assert(seq_min(s) == s[w]);
        }
    } else {
        assert(seq_min(s) == s[0]);
    }
}

/// The greatest element bounds every element from above and is attained.
proof fn lemma_seq_max(s: Seq<int>)
    requires
        s.len() > 0,
    ensures
        forall|i: int| 0 <= i < s.len() ==> #[trigger] s[i] <= seq_max(s),
        exists|i: int| 0 <= i < s.len() && seq_max(s) == #[trigger] s[i],
    decreases s.len(),
{
    if s.len() > 1 {
        lemma_seq_max(s.drop_last());
        assert forall|i: int| 0 <= i < s.len() implies #[trigger] s[i] <= seq_max(s) by {
            if i < s.len() - 1 {
                assert(s.drop_last()[i] == s[i]);
            }
        }
        if seq_max(s) == s.last() {
            assert(seq_max(s) == s[s.len() - 1]);
        } else {
            let w = choose|i: int|
                0 <= i < s.drop_last().len() && seq_max(s.drop_last()) == s.drop_last()[i];
            assert(s[w] == s.drop_last()[w]);
            assert(seq_max(s) == s[w]);
        }
    } else {
        assert(seq_max(s) == s[0]);
    }
}

/// The scores of a result list as a vector.
fn scores_u64(list: &Vec<RankedResult>) -> (res: Vec<u64>)
    ensures
        ints_of(res@) == scores_of(list@),
        res@.len() == list@.len(),
        forall|i: int| 0 <= i < res@.len() ==> #[trigger] res@[i] == list@[i].score,
{
    let n = list.len();
    let mut res: Vec<u64> = Vec::new();
    let mut i: usize = 0;
    while i < n
        invariant
            i <= n,
            n == list@.len(),
            res@.len() == i,
            forall|j: int| 0 <= j < i ==> #[trigger] res@[j] == list@[j].score,
        decreases n - i,
    {
        res.push(list[i].score);
        i = i + 1;
    }
    proof {
        assert(ints_of(res@) =~= scores_of(list@));
    }
    res
}

/// The reciprocal-rank contribution of every rank below `len`, under
/// constant `k` and weight `w`.
fn rrf_contribs(len: usize, k: u64, w: u64) -> (res: Vec<u64>)
    requires
        k <= MAX_RRF_K,
        w <= SCORE_SCALE,
        len <= MAX_FUSE_INPUT,
    ensures
        res@.len() == len,
        ints_of(res@) == spec_rrf_contribs(len as int, k as int, w as int),
        forall|i: int| 0 <= i < res@.len() ==> #[trigger] res@[i] <= SCORE_SCALE,
{
    let mut res: Vec<u64> = Vec::new();
    let mut i: usize = 0;
    while i < len
        invariant
            i <= len,
            len <= MAX_FUSE_INPUT,
            k <= MAX_RRF_K,
            w <= SCORE_SCALE,
            res@.len() == i,
            forall|j: int| 0 <= j < i ==> #[trigger] res@[j] <= SCORE_SCALE,
            forall|j: int|
                0 <= j < i ==> #[trigger] res@[j] as int == spec_rrf_contrib(
                    k as int,
                    j,
                    w as int,
                ),
        decreases len - i,
    {
        let denom = k + (i as u64) + 1;
        let q = SCORE_SCALE / denom;
        proof {
            assert(w * q <= SCORE_SCALE * SCORE_SCALE) by {
                lemma_mul_inequality(w as int, SCORE_SCALE as int, q as int);
                lemma_mul_inequality(q as int, SCORE_SCALE as int, SCORE_SCALE as int);
            }
            assert((w * q) as int / (SCORE_SCALE as int) <= SCORE_SCALE as int) by {
                lemma_div_is_ordered(
                    (w * q) as int,
                    (SCORE_SCALE * SCORE_SCALE) as int,
                    SCORE_SCALE as int,
                );
            }
        }
        let c = (w * q) / SCORE_SCALE;
        res.push(c);
        i = i + 1;
    }
    proof {
        assert(ints_of(res@) =~= spec_rrf_contribs(len as int, k as int, w as int));
    }
    res
}

/// Min-max normalize a vector of scores into `[0, SCORE_SCALE]`.
fn normalize_ints(scores: &Vec<u64>) -> (res: Vec<u64>)
    requires
        forall|i: int| 0 <= i < scores@.len() ==> #[trigger] scores@[i] <= MAX_RAW_SCORE,
    ensures
        res@.len() == scores@.len(),
        ints_of(res@) == spec_normalize(ints_of(scores@)),
        forall|i: int| 0 <= i < res@.len() ==> #[trigger] res@[i] <= SCORE_SCALE,
{
    let n = scores.len();
    if n == 0 {
        let res: Vec<u64> = Vec::new();
        proof {
            assert(ints_of(res@) =~= spec_normalize(ints_of(scores@)));
        }
        return res;
    }
    let ghost sv = ints_of(scores@);
    let mut mn: u64 = scores[0];
    let mut mx: u64 = scores[0];
    let mut i: usize = 1;
    while i < n
        invariant
            1 <= i <= n,
            n == scores@.len(),
            sv == ints_of(scores@),
            mn as int == seq_min(sv.subrange(0, i as int)),
            mx as int == seq_max(sv.subrange(0, i as int)),
        decreases n - i,
    {
        proof {
            let pre = sv.subrange(0, i + 1);
            assert(pre.drop_last() =~= sv.subrange(0, i as int));
            assert(pre.last() == sv[i as int]);
            assert(sv[i as int] == scores@[i as int] as int);
        }
        if scores[i] < mn {
            mn = scores[i];
        }
        if scores[i] > mx {
            mx = scores[i];
        }
        i = i + 1;
    }
    proof {
        assert(sv.subrange(0, n as int) =~= sv);
    }
    let mut res: Vec<u64> = Vec::new();
    if mx <= mn {
        let mut j: usize = 0;
        while j < n
            invariant
                j <= n,
                n == scores@.len(),
                res@.len() == j,
                forall|x: int| 0 <= x < j ==> #[trigger] res@[x] == SCORE_SCALE,
            decreases n - j,
        {
            res.push(SCORE_SCALE);
            j = j + 1;
        }
        proof {
            assert(sv.len() > 0);
            assert(seq_max(sv) <= seq_min(sv));
            assert(ints_of(res@) =~= spec_normalize(sv));
        }
        res
    } else {
        let range = mx - mn;
        let ghost rng = range as int;
        let mut j: usize = 0;
        while j < n
            invariant
                j <= n,
                n == scores@.len(),
                sv == ints_of(scores@),
                forall|x: int| 0 <= x < scores@.len() ==> #[trigger] scores@[x] <= MAX_RAW_SCORE,
                mn as int == seq_min(sv),
                mx as int == seq_max(sv),
                mn < mx,
                range == mx - mn,
                res@.len() == j,
                forall|x: int| 0 <= x < j ==> #[trigger] res@[x] <= SCORE_SCALE,
                forall|x: int|
                    0 <= x < j ==> #[trigger] res@[x] as int == (sv[x] - mn as int) * (
                    SCORE_SCALE as int) / (mx as int - mn as int),
            decreases n - j,
        {
            proof {
                lemma_seq_min(sv);
                lemma_seq_max(sv);
                assert(sv[j as int] == scores@[j as int] as int);
                assert(mn <= scores@[j as int]);
                assert(scores@[j as int] <= mx);
            }
            let d = scores[j] - mn;
            proof {
                assert(d <= range);
                assert(d * SCORE_SCALE <= MAX_RAW_SCORE * SCORE_SCALE) by {
                    lemma_mul_inequality(d as int, MAX_RAW_SCORE as int, SCORE_SCALE as int);
                }
                assert((d * SCORE_SCALE) as int / (range as int) <= SCORE_SCALE as int) by {
                    lemma_mul_inequality(d as int, range as int, SCORE_SCALE as int);
                    lemma_div_is_ordered(
                        (d * SCORE_SCALE) as int,
                        (range as int) * (SCORE_SCALE as int),
                        range as int,
                    );
                    vstd::arithmetic::div_mod::lemma_div_by_multiple(
                        SCORE_SCALE as int,
                        range as int,
                    );
                    assert((range as int) * (SCORE_SCALE as int) == (SCORE_SCALE as int) * (
                    range as int)) by {
                        vstd::arithmetic::mul::lemma_mul_is_commutative(
                            range as int,
                            SCORE_SCALE as int,
                        );
                    }
                }
            }
            let v = (d * SCORE_SCALE) / range;
            res.push(v);
            j = j + 1;
        }
        proof {
            assert(ints_of(res@) =~= spec_normalize(sv));
        }
        res
    }
}

/// Min-max normalize a result list's scores, leaving every other field of
/// each result alone.
pub fn normalize_scores(results: Vec<RankedResult>) -> (res: Vec<RankedResult>)
    requires
        forall|i: int| 0 <= i < results@.len() ==> #[trigger] results@[i].score <= MAX_RAW_SCORE,
    ensures
        res@.len() == results@.len(),
        forall|i: int|
            0 <= i < res@.len() ==> same_record(#[trigger] res@[i], results@[i]) && res@[i].source
                == results@[i].source,
        scores_of(res@) == spec_normalize(scores_of(results@)),
        forall|i: int| 0 <= i < res@.len() ==> #[trigger] res@[i].score <= SCORE_SCALE,
{
    let sv = scores_u64(&results);
    proof {
        assert forall|i: int| 0 <= i < sv@.len() implies #[trigger] sv@[i] <= MAX_RAW_SCORE by {
            assert(sv@[i] == results@[i].score);
        }
    }
    let norm = normalize_ints(&sv);
    let n = results.len();
    let mut res: Vec<RankedResult> = Vec::new();
    let mut i: usize = 0;
    while i < n
        invariant
            i <= n,
            n == results@.len(),
            norm@.len() == n,
            forall|x: int| 0 <= x < norm@.len() ==> #[trigger] norm@[x] <= SCORE_SCALE,
            res@.len() == i,
            forall|x: int|
                0 <= x < i ==> same_record(#[trigger] res@[x], results@[x]) && res@[x].source
                    == results@[x].source,
            forall|x: int| 0 <= x < i ==> #[trigger] res@[x].score == norm@[x],
        decreases n - i,
    {
        let mut e = results[i].clone();
        e.score = norm[i];
        res.push(e);
        i = i + 1;
    }
    proof {
        assert forall|i: int| 0 <= i < sv@.len() implies ints_of(sv@)[i] == scores_of(results@)[i]
        by {
            assert(sv@[i] == results@[i].score);
        }
        assert(ints_of(sv@) =~= scores_of(results@));
        assert(scores_of(res@) =~= ints_of(norm@));
    }
    res
}

/// The linear-fusion contribution of every rank of `list` under weight `w`.
fn lin_contribs(list: &Vec<RankedResult>, w: u64) -> (res: Vec<u64>)
    requires
        w <= SCORE_SCALE,
        forall|i: int| 0 <= i < list@.len() ==> #[trigger] list@[i].score <= MAX_RAW_SCORE,
    ensures
        res@.len() == list@.len(),
        ints_of(res@) == spec_lin_contribs(scores_of(list@), w as int),
        forall|i: int| 0 <= i < res@.len() ==> #[trigger] res@[i] <= SCORE_SCALE,
{
    let sv = scores_u64(list);
    proof {
        assert forall|i: int| 0 <= i < sv@.len() implies #[trigger] sv@[i] <= MAX_RAW_SCORE by {
            assert(sv@[i] == list@[i].score);
        }
        assert(ints_of(sv@) =~= scores_of(list@));
    }
    let norm = normalize_ints(&sv);
    let n = norm.len();
    let mut res: Vec<u64> = Vec::new();
    let mut i: usize = 0;
    while i < n
        invariant
            i <= n,
            w <= SCORE_SCALE,
            n == norm@.len(),
            forall|x: int| 0 <= x < norm@.len() ==> #[trigger] norm@[x] <= SCORE_SCALE,
            res@.len() == i,
            forall|x: int| 0 <= x < i ==> #[trigger] res@[x] <= SCORE_SCALE,
            forall|x: int|
                0 <= x < i ==> #[trigger] res@[x] as int == (w as int) * (norm@[x] as int) / (
                SCORE_SCALE as int),
        decreases n - i,
    {
        proof {
            assert(w * norm@[i as int] <= SCORE_SCALE * SCORE_SCALE) by {
                lemma_mul_inequality(w as int, SCORE_SCALE as int, norm@[i as int] as int);
                lemma_mul_inequality(
                    norm@[i as int] as int,
                    SCORE_SCALE as int,
                    SCORE_SCALE as int,
                );
            }
            assert((w * norm@[i as int]) as int / (SCORE_SCALE as int) <= SCORE_SCALE as int) by {
                lemma_div_is_ordered(
                    (w * norm@[i as int]) as int,
                    (SCORE_SCALE * SCORE_SCALE) as int,
                    SCORE_SCALE as int,
                );
            }
        }
        let c = (w * norm[i]) / SCORE_SCALE;
        res.push(c);
        i = i + 1;
    }
    proof {
        assert(ints_of(norm@) == spec_normalize(scores_of(list@)));
        assert forall|x: int| 0 <= x < res@.len() implies ints_of(res@)[x] == spec_lin_contribs(
            scores_of(list@),
            w as int,
        )[x] by {
            assert(spec_lin_contribs(scores_of(list@), w as int)[x] == (w as int) * (
            spec_normalize(scores_of(list@))[x]) / (SCORE_SCALE as int));
            assert(spec_normalize(scores_of(list@))[x] == norm@[x] as int);
        }
        assert(ints_of(res@) =~= spec_lin_contribs(scores_of(list@), w as int));
    }
    res
}


/// Element containment survives a position swap.
proof fn lemma_swap_same_elements(prev: Seq<RankedResult>, a: int, b: int)
    requires
        0 <= a < prev.len(),
        0 <= b < prev.len(),
    ensures
        same_elements(prev.update(a, prev[b]).update(b, prev[a]), prev),
        distinct_keys(prev) ==> distinct_keys(prev.update(a, prev[b]).update(b, prev[a])),
{
    let sw = prev.update(a, prev[b]).update(b, prev[a]);
    assert forall|i: int| 0 <= i < sw.len() implies seq_contains(prev, #[trigger] sw[i]) by {
        if i == b {
            assert(prev[a] == sw[i]);
        } else if i == a && a != b {
            assert(prev[b] == sw[i]);
        } else {
            assert(prev[i] == sw[i]);
        }
    }
    assert forall|i: int| 0 <= i < prev.len() implies seq_contains(sw, #[trigger] prev[i]) by {
        if i == a {
            assert(sw[b] == prev[i]);
        } else if i == b && a != b {
            assert(sw[a] == prev[i]);
        } else {
            assert(sw[i] == prev[i]);
        }
    }
    if distinct_keys(prev) {
        assert forall|x: int, y: int| 0 <= x < y < sw.len() implies sw[x].file_path@
            != sw[y].file_path@ by {
            let px = if x == a { b } else if x == b { a } else { x };
            let py = if y == a { b } else if y == b { a } else { y };
            assert(sw[x] == prev[px]);
            assert(sw[y] == prev[py]);
        }
    }
}

/// Sameness of elements is transitive.
proof fn lemma_same_elements_trans(a: Seq<RankedResult>, b: Seq<RankedResult>, c: Seq<RankedResult>)
    requires
        same_elements(a, b),
        same_elements(b, c),
    ensures
        same_elements(a, c),
{
    assert forall|i: int| 0 <= i < a.len() implies seq_contains(c, #[trigger] a[i]) by {
        assert(seq_contains(b, a[i]));
        let jb = choose|jb: int| 0 <= jb < b.len() && #[trigger] b[jb] == a[i];
        assert(seq_contains(c, b[jb]));
        let jc = choose|jc: int| 0 <= jc < c.len() && #[trigger] c[jc] == b[jb];
        assert(c[jc] == a[i]);
    }
    assert forall|i: int| 0 <= i < c.len() implies seq_contains(a, #[trigger] c[i]) by {
        assert(seq_contains(b, c[i]));
        let jb = choose|jb: int| 0 <= jb < b.len() && #[trigger] b[jb] == c[i];
        assert(seq_contains(a, b[jb]));
        let ja = choose|ja: int| 0 <= ja < a.len() && #[trigger] a[ja] == b[jb];
        assert(a[ja] == c[i]);
    }
}

/// Every sequence holds its own elements.
proof fn lemma_same_elements_refl(a: Seq<RankedResult>)
    ensures
        same_elements(a, a),
{
    assert forall|i: int| 0 <= i < a.len() implies seq_contains(a, #[trigger] a[i]) by {
        let x = a[i];
        assert(a[i] == x);
    }
}

/// Sort results by score, best first, by repeatedly sinking each element
/// into the sorted prefix. Keeps exactly the elements it was given.
fn sort_by_score_desc(v: &mut Vec<RankedResult>)
    ensures
        final(v)@.len() == old(v)@.len(),
        sorted_desc(final(v)@),
        same_elements(final(v)@, old(v)@),
        distinct_keys(old(v)@) ==> distinct_keys(final(v)@),
        distinct_keys(old(v)@) ==> forall|x: int, y: int|
            0 <= x < y < final(v)@.len() && final(v)@[x].score == final(v)@[y].score
                ==> #[trigger] pos_of(old(v)@, final(v)@[x]) < #[trigger] pos_of(
                old(v)@,
                final(v)@[y],
            ),
{
    let ghost orig = v@;
    proof {
        lemma_same_elements_refl(orig);
        if distinct_keys(orig) {
            assert forall|x: int, y: int|
                0 <= x < y < v@.len() && v@[x].score == v@[y].score implies #[trigger] pos_of(
                orig,
                v@[x],
            ) < #[trigger] pos_of(orig, v@[y]) by {
                lemma_pos_of(orig, x);
                lemma_pos_of(orig, y);
            }
        }
    }
    let n = v.len();
    if n <= 1 {
        return;
    }
    let mut i: usize = 1;
    while i < n
        invariant
            1 <= i <= n,
            n == v@.len(),
            v@.len() == orig.len(),
            same_elements(v@, orig),
            distinct_keys(orig) ==> distinct_keys(v@),
            distinct_keys(orig) ==> forall|x: int, y: int|
                0 <= x < y < v@.len() && v@[x].score == v@[y].score ==> #[trigger] pos_of(
                    orig,
                    v@[x],
                ) < #[trigger] pos_of(orig, v@[y]),
            forall|x: int, y: int| 0 <= x <= y < i ==> v@[x].score >= v@[y].score,
        decreases n - i,
    {
        let mut j: usize = i;
        while j > 0 && v[j - 1].score < v[j].score
            invariant
                0 <= j <= i < n,
                n == v@.len(),
                v@.len() == orig.len(),
                same_elements(v@, orig),
                distinct_keys(orig) ==> distinct_keys(v@),
                distinct_keys(orig) ==> forall|x: int, y: int|
                    0 <= x < y < v@.len() && v@[x].score == v@[y].score ==> #[trigger] pos_of(
                        orig,
                        v@[x],
                    ) < #[trigger] pos_of(orig, v@[y]),
                forall|x: int, y: int|
                    0 <= x < y <= i && y != j ==> v@[x].score >= v@[y].score,
                forall|y: int| j < y <= i ==> v@[j as int].score >= #[trigger] v@[y].score,
            decreases j,
        {
            let ghost prev = v@;
            let hi = v[j - 1].clone();
            let lo = v[j].clone();
            v[j - 1] = lo;
            v[j] = hi;
            proof {
                assert(v@ =~= prev.update(j - 1, prev[j as int]).update(j as int, prev[j - 1]));
                lemma_swap_same_elements(prev, j - 1, j as int);
                lemma_same_elements_trans(v@, prev, orig);
                if distinct_keys(orig) {
                    assert forall|x: int, y: int|
                        0 <= x < y < v@.len() && v@[x].score == v@[y].score implies #[trigger] pos_of(
                        orig,
                        v@[x],
                    ) < #[trigger] pos_of(orig, v@[y]) by {
                        let px: int = if x == j - 1 {
                            j as int
                        } else if x == j as int {
                            j - 1
                        } else {
                            x
                        };
                        let py: int = if y == j - 1 {
                            j as int
                        } else if y == j as int {
                            j - 1
                        } else {
                            y
                        };
                        assert(v@[x] == prev[px]);
                        assert(v@[y] == prev[py]);
                        if x == j - 1 && y == j as int {
                            assert(prev[j - 1].score < prev[j as int].score);
                        } else {
                            assert(px < py);
                            assert(pos_of(orig, prev[px]) < pos_of(orig, prev[py]));
                        }
                    }
                }
                assert forall|x: int, y: int|
                    0 <= x < y <= i && y != j - 1 implies v@[x].score >= v@[y].score by {
                    if y == j {
                        if x == j - 1 {
                            assert(v@[x] == prev[j as int]);
                            assert(v@[y] == prev[j - 1]);
                        } else {
                            assert(v@[x] == prev[x]);
                            assert(v@[y] == prev[j - 1]);
                            assert(prev[x].score >= prev[j - 1].score);
                        }
                    } else {
                        assert(v@[y] == prev[y]);
                        if x == j - 1 {
                            assert(v@[x] == prev[j as int]);
                            assert(prev[j as int].score >= prev[y].score);
                        } else if x == j {
                            assert(v@[x] == prev[j - 1]);
                            assert(prev[j - 1].score >= prev[y].score);
                        } else {
                            assert(v@[x] == prev[x]);
                        }
                    }
                }
                assert forall|y: int| j - 1 < y <= i implies v@[j - 1].score >= #[trigger] v@[y].score by {
                    assert(v@[j - 1] == prev[j as int]);
                    if y == j {
                        assert(v@[y] == prev[j - 1]);
                    } else {
                        assert(v@[y] == prev[y]);
                    }
                }
            }
            j = j - 1;
        }
        proof {
            assert forall|x: int, y: int|
                0 <= x <= y < i + 1 implies v@[x].score >= v@[y].score by {
                if x < y {
                    if y == j {
                        if j > 0 {
                            assert(v@[j - 1].score >= v@[j as int].score);
                            if x < j - 1 {
                                assert(v@[x].score >= v@[j - 1].score);
                            }
                        }
                    } else {
                        assert(v@[x].score >= v@[y].score);
                    }
                }
            }
        }
        i = i + 1;
    }
}

impl HybridRanker {
    /// The ranker's configuration.
    pub closed spec fn spec_config(&self) -> HybridConfig {
        self.config
    }

    /// A ranker for the given configuration.
    pub fn new(config: HybridConfig) -> (res: HybridRanker)
        requires
            config_wf(config),
        ensures
            res.spec_config() == config,
            config_wf(res.spec_config()),
    {
        HybridRanker { config }
    }

    /// Fuse a lexical and a semantic result list into one ranking.
    ///
    /// Every returned result carries the exact fused score of its path under
    /// the configured mode and its source set to `Hybrid`; its remaining
    /// fields are those of the first input result seen with that path, the
    /// lexical list being processed first (`record_retained`). Paths are
    /// unique in the output, which is sorted by score, best first, equal
    /// scores keeping the order in which their paths entered the fusion
    /// (`spec_inserted_before`), and cut to `limit`; a path dropped by the
    /// cut scores no better than the last one kept.
    #[verifier::rlimit(100)]
    pub fn fuse(
        &self,
        lexical: Vec<RankedResult>,
        semantic: Vec<RankedResult>,
        limit: usize,
    ) -> (res: Vec<RankedResult>)
        requires
            config_wf(self.spec_config()),
            lexical@.len() <= MAX_FUSE_INPUT,
            semantic@.len() <= MAX_FUSE_INPUT,
            !self.spec_config().use_rrf ==> (forall|i: int|
                0 <= i < lexical@.len() ==> #[trigger] lexical@[i].score <= MAX_RAW_SCORE) && (
            forall|i: int|
                0 <= i < semantic@.len() ==> #[trigger] semantic@[i].score <= MAX_RAW_SCORE),
        ensures
            res@.len() <= limit,
            sorted_desc(res@),
            distinct_keys(res@),
            forall|i: int|
                0 <= i < res@.len() ==> #[trigger] res@[i].score as int == spec_fused_score(
                    lexical@,
                    semantic@,
                    self.spec_config(),
                    res@[i].file_path@,
                ) && res@[i].source == SearchSource::Hybrid && record_retained(
                    res@[i],
                    lexical@,
                    semantic@,
                ),
            forall|i: int, j: int|
                0 <= i < j < res@.len() && (#[trigger] res@[i]).score == (
                #[trigger] res@[j]).score ==> spec_inserted_before(
                    lexical@,
                    semantic@,
                    res@[i].file_path@,
                    res@[j].file_path@,
                ),
            forall|p: Seq<char>|
                #[trigger] key_in(res@, p) ==> key_in(lexical@, p) || key_in(semantic@, p),
            res@.len() < limit ==> (forall|r: int|
                0 <= r < lexical@.len() ==> key_in(res@, #[trigger] lexical@[r].file_path@)) && (
            forall|r: int|
                0 <= r < semantic@.len() ==> key_in(res@, #[trigger] semantic@[r].file_path@)),
            forall|p: Seq<char>|
                (key_in(lexical@, p) || key_in(semantic@, p)) && !(#[trigger] key_in(res@, p))
                    && res@.len() > 0 ==> spec_fused_score(lexical@, semantic@, self.spec_config(), p)
                    <= res@[res@.len() - 1].score as int,
    {
        let cfg = self.config;
        let w_sem = SCORE_SCALE - cfg.alpha;
        let lex_c: Vec<u64>;
        let sem_c: Vec<u64>;
        if cfg.use_rrf {
            lex_c = rrf_contribs(lexical.len(), cfg.rrf_k, cfg.alpha);
            sem_c = rrf_contribs(semantic.len(), cfg.rrf_k, w_sem);
        } else {
            lex_c = lin_contribs(&lexical, cfg.alpha);
            sem_c = lin_contribs(&semantic, w_sem);
        }
        proof {
            assert(ints_of(lex_c@) == spec_contribs(lexical@, cfg, cfg.alpha as int));
            assert(ints_of(sem_c@) == spec_contribs(semantic@, cfg, w_sem as int));
        }
        let mut acc: Vec<RankedResult> = Vec::new();
        accumulate(&mut acc, &lexical, &lex_c);
        let ghost acc1 = acc@;
        proof {
            assert forall|j: int|
                0 <= j < acc1.len() implies #[trigger] acc1[j].score as int + (SCORE_SCALE as int)
                * (semantic@.len() as int) <= u64::MAX as int by {
                lemma_keyed_sum_bounds(
                    paths_of(lexical@),
                    ints_of(lex_c@),
                    acc1[j].file_path@,
                    lexical@.len() as int,
                );
                lemma_mul_inequality(
                    lexical@.len() as int,
                    MAX_FUSE_INPUT as int,
                    SCORE_SCALE as int,
                );
                lemma_mul_inequality(
                    semantic@.len() as int,
                    MAX_FUSE_INPUT as int,
                    SCORE_SCALE as int,
                );
                assert((SCORE_SCALE as int) * (semantic@.len() as int) == (
                semantic@.len() as int) * (SCORE_SCALE as int)) by {
                    vstd::arithmetic::mul::lemma_mul_is_commutative(
                        SCORE_SCALE as int,
                        semantic@.len() as int,
                    );
                }
            }
        }
        accumulate(&mut acc, &semantic, &sem_c);
        proof {
            assert forall|j: int|
                0 <= j < acc@.len() implies #[trigger] acc@[j].score as int == spec_fused_score(
                lexical@,
                semantic@,
                cfg,
                acc@[j].file_path@,
            ) by {
                let key = acc@[j].file_path@;
                if j < acc1.len() {
                    assert(same_record(acc@[j], acc1[j]));
                    assert(acc1[j].file_path == acc@[j].file_path);
                    assert(acc@[j].score as int == acc1[j].score as int + spec_keyed_sum(
                        paths_of(semantic@),
                        ints_of(sem_c@),
                        key,
                        semantic@.len() as int,
                    ));
                } else {
                    assert(!key_in(acc1, key)) by {
                        if key_in(acc1, key) {
                            let w = choose|w: int|
                                0 <= w < acc1.len() && acc1[w].file_path@ == key;
                            assert(same_record(acc@[w], acc1[w]));
                            assert(acc@[w].file_path@ == key);
                            assert(distinct_keys(acc@));
                        }
                    }
                    assert forall|r: int| 0 <= r < lexical@.len() implies paths_of(lexical@)[r]
                        != key by {
                        assert(key_in(acc1, lexical@[r].file_path@));
                        assert(paths_of(lexical@)[r] == lexical@[r].file_path@);
                    }
                    lemma_keyed_sum_absent(
                        paths_of(lexical@),
                        ints_of(lex_c@),
                        key,
                        lexical@.len() as int,
                    );
                    assert(acc@[j].score as int == 0 + spec_keyed_sum(
                        paths_of(semantic@),
                        ints_of(sem_c@),
                        key,
                        semantic@.len() as int,
                    ));
                }
            }
            // the lexical pass's entries keep their paths, which lie in the
            // lexical list; entries new in the semantic pass lie outside it
            assert forall|j: int|
                0 <= j < acc1.len() implies (#[trigger] acc@[j]).file_path@ == acc1[j].file_path@
                && key_in(lexical@, acc@[j].file_path@) by {
                assert(same_record(acc@[j], acc1[j]));
                let fi = spec_first_index(paths_of(lexical@), acc1[j].file_path@);
                assert(0 <= fi < lexical@.len() && same_record(acc1[j], lexical@[fi]));
                assert(lexical@[fi].file_path@ == acc1[j].file_path@);
            }
            assert forall|r: int| 0 <= r < lexical@.len() implies key_in(
                acc@,
                #[trigger] lexical@[r].file_path@,
            ) by {
                let w = choose|w: int|
                    0 <= w < acc1.len() && acc1[w].file_path@ == lexical@[r].file_path@;
                assert(acc@[w].file_path@ == lexical@[r].file_path@);
            }
            assert forall|j: int|
                acc1.len() <= j < acc@.len() implies !key_in(
                lexical@,
                (#[trigger] acc@[j]).file_path@,
            ) by {
                let key = acc@[j].file_path@;
                if key_in(lexical@, key) {
                    let r = choose|r: int|
                        0 <= r < lexical@.len() && #[trigger] lexical@[r].file_path@ == key;
                    assert(key_in(acc1, lexical@[r].file_path@));
                    let w = choose|w: int| 0 <= w < acc1.len() && #[trigger] acc1[w].file_path@ == key;
                    assert(acc@[w].file_path@ == key);
                    assert(acc@[w].file_path@ != acc@[j].file_path@);
                }
            }
            // the retained record is the first-seen one
            assert forall|j: int|
                0 <= j < acc@.len() implies record_retained(
                #[trigger] acc@[j],
                lexical@,
                semantic@,
            ) by {
                if j < acc1.len() {
                    let fi = spec_first_index(paths_of(lexical@), acc@[j].file_path@);
                    assert(same_record(acc@[j], acc1[j]));
                    assert(same_record(acc1[j], lexical@[fi]));
                } else {
                    let key = acc@[j].file_path@;
                    let fi = spec_first_index(paths_of(semantic@), key);
                    assert(0 <= fi < semantic@.len() && same_record(acc@[j], semantic@[fi]));
                    assert(semantic@[fi].file_path@ == key);
                    assert(key_in(semantic@, key));
                }
            }
            // accumulator position order is the fusion's insertion order
            assert forall|j1: int, j2: int|
                0 <= j1 < j2 < acc@.len() implies spec_inserted_before(
                lexical@,
                semantic@,
                (#[trigger] acc@[j1]).file_path@,
                (#[trigger] acc@[j2]).file_path@,
            ) by {
                if j2 < acc1.len() {
                    assert(spec_first_index(paths_of(lexical@), acc1[j1].file_path@)
                        < spec_first_index(paths_of(lexical@), acc1[j2].file_path@));
                } else if j1 >= acc1.len() {
                    assert(spec_first_index(paths_of(semantic@), acc@[j1].file_path@)
                        < spec_first_index(paths_of(semantic@), acc@[j2].file_path@));
                }
            }
        }
        let ghost fused = acc@;
        sort_by_score_desc(&mut acc);
        let ghost sorted = acc@;
        acc.truncate(limit);
        proof {
            if limit <= sorted.len() {
                assert(acc@ == sorted.subrange(0, limit as int));
            } else {
                assert(acc@ == sorted);
            }
            // every kept entry is one of the fused entries
            assert forall|i: int| 0 <= i < acc@.len() implies seq_contains(
                fused,
                #[trigger] acc@[i],
            ) by {
                assert(acc@[i] == sorted[i]);
                assert(seq_contains(fused, sorted[i]));
            }
            // sortedness and distinctness restrict to the kept prefix
            assert(sorted_desc(acc@)) by {
                assert forall|x: int, y: int|
                    0 <= x <= y < acc@.len() implies acc@[x].score >= acc@[y].score by {
                    assert(acc@[x] == sorted[x]);
                    assert(acc@[y] == sorted[y]);
                }
            }
            assert(distinct_keys(acc@)) by {
                assert forall|x: int, y: int|
                    0 <= x < y < acc@.len() implies acc@[x].file_path@ != acc@[y].file_path@ by {
                    assert(acc@[x] == sorted[x]);
                    assert(acc@[y] == sorted[y]);
                }
            }
            // scores, sources and record origins carry over from the fused list
            assert forall|i: int|
                0 <= i < acc@.len() implies #[trigger] acc@[i].score as int == spec_fused_score(
                lexical@,
                semantic@,
                cfg,
                acc@[i].file_path@,
            ) && acc@[i].source == SearchSource::Hybrid && record_retained(
                acc@[i],
                lexical@,
                semantic@,
            ) by {
                let j = choose|j: int| 0 <= j < fused.len() && #[trigger] fused[j] == acc@[i];
                assert(fused[j].score as int == spec_fused_score(
                    lexical@,
                    semantic@,
                    cfg,
                    fused[j].file_path@,
                ));
            }
            assert forall|p: Seq<char>| #[trigger] key_in(acc@, p) implies key_in(lexical@, p)
                || key_in(semantic@, p) by {
                let i = choose|i: int| 0 <= i < acc@.len() && acc@[i].file_path@ == p;
                assert(seq_contains(fused, acc@[i]));
                let j = choose|j: int| 0 <= j < fused.len() && #[trigger] fused[j] == acc@[i];
                assert(fused[j].file_path@ == p);
                assert(key_in(fused, p));
            }
            // fewer kept than asked: nothing was cut, so every input path is kept
            if acc@.len() < limit {
                assert(acc@ == sorted);
                assert forall|r: int| 0 <= r < lexical@.len() implies key_in(
                    acc@,
                    #[trigger] lexical@[r].file_path@,
                ) by {
                    let w = choose|w: int|
                        0 <= w < fused.len() && fused[w].file_path@ == lexical@[r].file_path@;
                    assert(seq_contains(sorted, fused[w]));
                    let w2 = choose|w2: int|
                        0 <= w2 < sorted.len() && #[trigger] sorted[w2] == fused[w];
                    assert(acc@[w2].file_path@ == lexical@[r].file_path@);
                }
                assert forall|r: int| 0 <= r < semantic@.len() implies key_in(
                    acc@,
                    #[trigger] semantic@[r].file_path@,
                ) by {
                    let w = choose|w: int|
                        0 <= w < fused.len() && fused[w].file_path@ == semantic@[r].file_path@;
                    assert(seq_contains(sorted, fused[w]));
                    let w2 = choose|w2: int|
                        0 <= w2 < sorted.len() && #[trigger] sorted[w2] == fused[w];
                    assert(acc@[w2].file_path@ == semantic@[r].file_path@);
                }
            }
            // equal scores keep the order in which their paths entered
            assert forall|i: int, j2: int|
                0 <= i < j2 < acc@.len() && (#[trigger] acc@[i]).score == (
                #[trigger] acc@[j2]).score implies spec_inserted_before(
                lexical@,
                semantic@,
                acc@[i].file_path@,
                acc@[j2].file_path@,
            ) by {
                assert(acc@[i] == sorted[i]);
                assert(acc@[j2] == sorted[j2]);
                assert(seq_contains(fused, sorted[i]));
                let w1 = choose|w: int| 0 <= w < fused.len() && #[trigger] fused[w] == sorted[i];
                assert(seq_contains(fused, sorted[j2]));
                let w2 = choose|w: int| 0 <= w < fused.len() && #[trigger] fused[w] == sorted[j2];
                let p1 = pos_of(fused, sorted[i]);
                let p2 = pos_of(fused, sorted[j2]);
                assert(0 <= p1 < fused.len() && fused[p1] == sorted[i]);
                assert(0 <= p2 < fused.len() && fused[p2] == sorted[j2]);
                assert(p1 < p2);
                assert(spec_inserted_before(
                    lexical@,
                    semantic@,
                    fused[p1].file_path@,
                    fused[p2].file_path@,
                ));
            }
            // a path cut away scores no better than the last kept one
            assert forall|p: Seq<char>|
                (key_in(lexical@, p) || key_in(semantic@, p)) && !(#[trigger] key_in(acc@, p))
                    && acc@.len() > 0 implies spec_fused_score(lexical@, semantic@, cfg, p)
                <= acc@[acc@.len() - 1].score as int by {
                let w = choose|w: int| 0 <= w < fused.len() && fused[w].file_path@ == p;
                assert(seq_contains(sorted, fused[w]));
                let w2 = choose|w2: int| 0 <= w2 < sorted.len() && #[trigger] sorted[w2] == fused[w];
                assert(sorted[w2].file_path@ == p);
                assert(sorted[w2].score as int == spec_fused_score(lexical@, semantic@, cfg, p));
                assert(w2 >= acc@.len()) by {
                    if w2 < acc@.len() {
                        assert(acc@[w2] == sorted[w2]);
                        assert(key_in(acc@, p));
                    }
                }
                assert(acc@[acc@.len() - 1] == sorted[acc@.len() - 1]);
                assert(sorted[acc@.len() - 1].score >= sorted[w2].score);
            }
        }
        acc
    }
}

/// The path `key` occurs at most once among `paths`.
pub open spec fn at_most_once(paths: Seq<Seq<char>>, key: Seq<char>) -> bool {
    forall|i: int, j: int|
        0 <= i < j < paths.len() ==> !(#[trigger] paths[i] == key && #[trigger] paths[j] == key)
}

/// A keyed sum of pointwise nonnegative contributions is nonnegative.
proof fn lemma_keyed_sum_nonneg(paths: Seq<Seq<char>>, contribs: Seq<int>, key: Seq<char>, upto: int)
    requires
        forall|i: int| 0 <= i < upto ==> 0 <= #[trigger] contribs[i],
    ensures
        0 <= spec_keyed_sum(paths, contribs, key, upto),
    decreases (if upto >= 0 { upto } else { 0 }),
{
    if upto > 0 {
        lemma_keyed_sum_nonneg(paths, contribs, key, upto - 1);
    }
}

/// Two pointwise-equal prefixes give the same keyed sum.
proof fn lemma_keyed_sum_prefix(
    paths1: Seq<Seq<char>>,
    contribs1: Seq<int>,
    paths2: Seq<Seq<char>>,
    contribs2: Seq<int>,
    key: Seq<char>,
    upto: int,
)
    requires
        upto <= paths1.len(),
        upto <= paths2.len(),
        forall|i: int| 0 <= i < upto ==> #[trigger] paths1[i] == paths2[i],
        forall|i: int| 0 <= i < upto ==> #[trigger] contribs1[i] == contribs2[i],
    ensures
        spec_keyed_sum(paths1, contribs1, key, upto) == spec_keyed_sum(
            paths2,
            contribs2,
            key,
            upto,
        ),
    decreases (if upto >= 0 { upto } else { 0 }),
{
    if upto > 0 {
        lemma_keyed_sum_prefix(paths1, contribs1, paths2, contribs2, key, upto - 1);
    }
}

/// With nonnegative contributions, the keyed sum is at least the
/// contribution of any one position carrying the key.
proof fn lemma_keyed_sum_at_least(
    paths: Seq<Seq<char>>,
    contribs: Seq<int>,
    key: Seq<char>,
    upto: int,
    r: int,
)
    requires
        0 <= r < upto <= paths.len(),
        paths[r] == key,
        forall|i: int| 0 <= i < upto ==> 0 <= #[trigger] contribs[i],
    ensures
        spec_keyed_sum(paths, contribs, key, upto) >= contribs[r],
    decreases upto,
{
    if r == upto - 1 {
        lemma_keyed_sum_nonneg(paths, contribs, key, upto - 1);
    } else {
        lemma_keyed_sum_at_least(paths, contribs, key, upto - 1, r);
    }
}

/// When `key` occurs at most once, the keyed sum never exceeds any common
/// bound on the contributions.
proof fn lemma_keyed_sum_at_most_once(
    paths: Seq<Seq<char>>,
    contribs: Seq<int>,
    key: Seq<char>,
    upto: int,
    cap: int,
)
    requires
        upto <= paths.len(),
        0 <= cap,
        at_most_once(paths, key),
        forall|i: int| 0 <= i < upto ==> 0 <= #[trigger] contribs[i] <= cap,
    ensures
        0 <= spec_keyed_sum(paths, contribs, key, upto) <= cap,
    decreases (if upto >= 0 { upto } else { 0 }),
{
    if upto > 0 {
        if 0 <= upto - 1 < paths.len() && paths[upto - 1] == key {
            assert forall|i: int| 0 <= i < upto - 1 implies paths[i] != key by {
                assert(!(paths[i] == key && paths[upto - 1] == key));
            }
            lemma_keyed_sum_absent(paths, contribs, key, upto - 1);
        } else {
            lemma_keyed_sum_at_most_once(paths, contribs, key, upto - 1, cap);
        }
    }
}

/// Every reciprocal-rank contribution lies between zero and the rank-zero
/// contribution `w·(1/(k+1))`, and never above the weight itself.
proof fn lemma_rrf_contrib_bounds(k: int, rank: int, w: int)
    requires
        0 <= k,
        0 <= rank,
        0 <= w <= SCORE_SCALE as int,
    ensures
        0 <= spec_rrf_contrib(k, rank, w),
        spec_rrf_contrib(k, rank, w) <= (w * ((SCORE_SCALE as int) / (k + 1))) / (
        SCORE_SCALE as int),
{
    let scale = SCORE_SCALE as int;
    let q = scale / (k + rank + 1);
    let q0 = scale / (k + 1);
    lemma_div_pos_is_pos(scale, k + rank + 1);
    assert(0 <= w * q) by {
        vstd::arithmetic::mul::lemma_mul_nonnegative(w, q);
    }
    lemma_div_pos_is_pos(w * q, scale);
    vstd::arithmetic::div_mod::lemma_div_is_ordered_by_denominator(scale, k + 1, k + rank + 1);
    assert(w * q <= w * q0) by {
        vstd::arithmetic::mul::lemma_mul_inequality(q, q0, w);
        vstd::arithmetic::mul::lemma_mul_is_commutative(q, w);
        vstd::arithmetic::mul::lemma_mul_is_commutative(q0, w);
    }
    lemma_div_is_ordered(w * q, w * q0, scale);
}

/// Floor division distributes superadditively over a sum: the sum of two
/// quotients never exceeds the quotient of the sum.
proof fn lemma_div_superadditive(a: int, b: int, d: int)
    requires
        0 <= a,
        0 <= b,
        0 < d,
    ensures
        a / d + b / d <= (a + b) / d,
{
    let u = a / d + b / d;
    vstd::arithmetic::div_mod::lemma_fundamental_div_mod(a, d);
    vstd::arithmetic::div_mod::lemma_fundamental_div_mod(b, d);
    vstd::arithmetic::div_mod::lemma_mod_bound(a, d);
    vstd::arithmetic::div_mod::lemma_mod_bound(b, d);
    lemma_div_pos_is_pos(a, d);
    lemma_div_pos_is_pos(b, d);
    assert(d * u == d * (a / d) + d * (b / d)) by {
        vstd::arithmetic::mul::lemma_mul_is_distributive_add(d, a / d, b / d);
    }
    assert(d * u <= a + b);
    assert(u <= (a + b) / d) by {
        lemma_div_is_ordered(d * u, a + b, d);
        vstd::arithmetic::div_mod::lemma_div_multiples_vanish(u, d);
    }
}

/// Law (reciprocal-rank monotonicity): appending one more result to either
/// input list never lowers any document's fused score.
pub proof fn lemma_rrf_monotone(
    lex: Seq<RankedResult>,
    sem: Seq<RankedResult>,
    cfg: HybridConfig,
    extra: RankedResult,
    key: Seq<char>,
)
    requires
        cfg.use_rrf,
        config_wf(cfg),
    ensures
        spec_fused_score(lex.push(extra), sem, cfg, key) >= spec_fused_score(lex, sem, cfg, key),
        spec_fused_score(lex, sem.push(extra), cfg, key) >= spec_fused_score(lex, sem, cfg, key),
{
    lemma_rrf_list_monotone(lex, cfg, cfg.alpha as int, extra, key);
    lemma_rrf_list_monotone(sem, cfg, SCORE_SCALE as int - cfg.alpha as int, extra, key);
}

/// One list's reciprocal-rank share never drops when a result is appended.
proof fn lemma_rrf_list_monotone(
    list: Seq<RankedResult>,
    cfg: HybridConfig,
    w: int,
    extra: RankedResult,
    key: Seq<char>,
)
    requires
        cfg.use_rrf,
        0 <= cfg.rrf_k,
        0 <= w <= SCORE_SCALE as int,
    ensures
        spec_list_score(list.push(extra), cfg, w, key) >= spec_list_score(list, cfg, w, key),
{
    let k = cfg.rrf_k as int;
    let n = list.len() as int;
    let paths = paths_of(list);
    let paths2 = paths_of(list.push(extra));
    let cs = spec_rrf_contribs(n, k, w);
    let cs2 = spec_rrf_contribs(n + 1, k, w);
    assert forall|i: int| 0 <= i < n implies #[trigger] paths[i] == paths2[i] by {
        assert(paths[i] == list[i].file_path@);
        assert(paths2[i] == list.push(extra)[i].file_path@);
    }
    lemma_keyed_sum_prefix(paths2, cs2, paths, cs, key, n);
    lemma_rrf_contrib_bounds(k, n, w);
    assert(spec_keyed_sum(paths2, cs2, key, n + 1) >= spec_keyed_sum(paths2, cs2, key, n));
}

/// Law (normalization idempotence): min-max normalizing an already
/// normalized score list changes nothing.
pub proof fn lemma_normalize_idempotent(s: Seq<int>)
    ensures
        spec_normalize(spec_normalize(s)) == spec_normalize(s),
{
    let scale = SCORE_SCALE as int;
    if s.len() == 0 {
        return ;
    }
    lemma_seq_min(s);
    lemma_seq_max(s);
    let mn = seq_min(s);
    let mx = seq_max(s);
    if mx <= mn {
        let t = Seq::new(s.len(), |i: int| scale);
        lemma_seq_min(t);
        lemma_seq_max(t);
        assert(seq_min(t) == scale);
        assert(seq_max(t) == scale);
        assert(spec_normalize(t) =~= t);
    } else {
        let d = mx - mn;
        let t = Seq::new(s.len(), |i: int| (s[i] - mn) * scale / d);
        assert forall|i: int| 0 <= i < t.len() implies 0 <= #[trigger] t[i] <= scale by {
            assert(mn <= s[i] <= mx);
            assert(0 <= (s[i] - mn) * scale) by {
                vstd::arithmetic::mul::lemma_mul_nonnegative(s[i] - mn, scale);
            }
            lemma_div_pos_is_pos((s[i] - mn) * scale, d);
            assert((s[i] - mn) * scale <= d * scale) by {
                vstd::arithmetic::mul::lemma_mul_inequality(s[i] - mn, d, scale);
            }
            lemma_div_is_ordered((s[i] - mn) * scale, d * scale, d);
            assert(d * scale / d == scale) by {
                vstd::arithmetic::div_mod::lemma_div_multiples_vanish(scale, d);
            }
        }
        let i0 = choose|i: int| 0 <= i < s.len() && seq_min(s) == s[i];
        let i1 = choose|i: int| 0 <= i < s.len() && seq_max(s) == s[i];
        assert(t[i0] == (mn - mn) * scale / d);
        assert((mn - mn) * scale == 0) by {
            vstd::arithmetic::mul::lemma_mul_basics(scale);
        }
        assert(t[i0] == 0) by {
            vstd::arithmetic::div_mod::lemma_div_of0(d);
        }
        assert(t[i1] == (mx - mn) * scale / d);
        assert(t[i1] == scale) by {
            vstd::arithmetic::div_mod::lemma_div_multiples_vanish(scale, d);
            assert(d * scale == (mx - mn) * scale);
        }
        lemma_seq_min(t);
        lemma_seq_max(t);
        assert(seq_min(t) == 0) by {
            assert(seq_min(t) <= t[i0]);
            let w = choose|i: int| 0 <= i < t.len() && seq_min(t) == t[i];
            assert(0 <= t[w]);
        }
        assert(seq_max(t) == scale) by {
            assert(t[i1] <= seq_max(t));
            let w = choose|i: int| 0 <= i < t.len() && seq_max(t) == t[i];
            assert(t[w] <= scale);
        }
        assert(spec_normalize(t) =~= t) by {
            assert forall|i: int| 0 <= i < t.len() implies spec_normalize(t)[i] == t[i] by {
                assert(spec_normalize(t)[i] == (t[i] - 0) * scale / (scale - 0));
                assert(t[i] * scale / scale == t[i]) by {
                    vstd::arithmetic::div_mod::lemma_div_by_multiple(t[i], scale);
                }
            }
        }
    }
}

/// Law (fused score range): under reciprocal rank fusion with each path
/// occurring at most once per input list, every fused score lies between
/// zero and `SCORE_SCALE/(k+1)`, the millionths image of `1/(k+1)`.
pub proof fn lemma_rrf_score_range(
    lex: Seq<RankedResult>,
    sem: Seq<RankedResult>,
    cfg: HybridConfig,
    key: Seq<char>,
)
    requires
        cfg.use_rrf,
        config_wf(cfg),
        at_most_once(paths_of(lex), key),
        at_most_once(paths_of(sem), key),
    ensures
        0 <= spec_fused_score(lex, sem, cfg, key),
        spec_fused_score(lex, sem, cfg, key) <= (SCORE_SCALE as int) / (cfg.rrf_k as int + 1),
{
    let scale = SCORE_SCALE as int;
    let k = cfg.rrf_k as int;
    let a = cfg.alpha as int;
    let b = scale - a;
    let q0 = scale / (k + 1);
    let cap_l = a * q0 / scale;
    let cap_s = b * q0 / scale;
    lemma_div_pos_is_pos(scale, k + 1);
    assert(0 <= a * q0) by {
        vstd::arithmetic::mul::lemma_mul_nonnegative(a, q0);
    }
    assert(0 <= b * q0) by {
        vstd::arithmetic::mul::lemma_mul_nonnegative(b, q0);
    }
    lemma_div_pos_is_pos(a * q0, scale);
    lemma_div_pos_is_pos(b * q0, scale);
    assert forall|i: int|
        0 <= i < lex.len() implies 0 <= #[trigger] spec_contribs(lex, cfg, a)[i] <= cap_l by {
        lemma_rrf_contrib_bounds(k, i, a);
    }
    assert forall|i: int|
        0 <= i < sem.len() implies 0 <= #[trigger] spec_contribs(sem, cfg, b)[i] <= cap_s by {
        lemma_rrf_contrib_bounds(k, i, b);
    }
    lemma_keyed_sum_at_most_once(paths_of(lex), spec_contribs(lex, cfg, a), key, lex.len() as int, cap_l);
    lemma_keyed_sum_at_most_once(paths_of(sem), spec_contribs(sem, cfg, b), key, sem.len() as int, cap_s);
    lemma_div_superadditive(a * q0, b * q0, scale);
    assert(a * q0 + b * q0 == scale * q0) by {
        vstd::arithmetic::mul::lemma_mul_is_distributive_add_other_way(q0, a, b);
    }
    assert(scale * q0 / scale == q0) by {
        vstd::arithmetic::div_mod::lemma_div_multiples_vanish(q0, scale);
    }
}

/// Law (fused score positivity): a document sitting at rank `r` of the
/// lexical list has a positive fused score as soon as the weighted
/// reciprocal of its rank amounts to at least one millionth.
pub proof fn lemma_rrf_score_positive_lex(
    lex: Seq<RankedResult>,
    sem: Seq<RankedResult>,
    cfg: HybridConfig,
    key: Seq<char>,
    r: int,
)
    requires
        cfg.use_rrf,
        config_wf(cfg),
        0 <= r < lex.len(),
        paths_of(lex)[r] == key,
        (cfg.alpha as int) * ((SCORE_SCALE as int) / (cfg.rrf_k as int + r + 1))
            >= SCORE_SCALE as int,
    ensures
        spec_fused_score(lex, sem, cfg, key) > 0,
{
    let scale = SCORE_SCALE as int;
    let k = cfg.rrf_k as int;
    let a = cfg.alpha as int;
    let b = scale - a;
    assert forall|i: int|
        0 <= i < lex.len() implies 0 <= #[trigger] spec_contribs(lex, cfg, a)[i] by {
        lemma_rrf_contrib_bounds(k, i, a);
    }
    assert forall|i: int|
        0 <= i < sem.len() implies 0 <= #[trigger] spec_contribs(sem, cfg, b)[i] by {
        lemma_rrf_contrib_bounds(k, i, b);
    }
    assert(spec_rrf_contrib(k, r, a) >= 1) by {
        lemma_div_is_ordered(scale, a * (scale / (k + r + 1)), scale);
        assert(scale / scale == 1) by {
            vstd::arithmetic::div_mod::lemma_div_multiples_vanish(1, scale);
        }
    }
    lemma_keyed_sum_at_least(paths_of(lex), spec_contribs(lex, cfg, a), key, lex.len() as int, r);
    lemma_keyed_sum_nonneg(paths_of(sem), spec_contribs(sem, cfg, b), key, sem.len() as int);
}

/// Law (fused score positivity, semantic side): the same, for a document at
/// rank `r` of the semantic list.
pub proof fn lemma_rrf_score_positive_sem(
    lex: Seq<RankedResult>,
    sem: Seq<RankedResult>,
    cfg: HybridConfig,
    key: Seq<char>,
    r: int,
)
    requires
        cfg.use_rrf,
        config_wf(cfg),
        0 <= r < sem.len(),
        paths_of(sem)[r] == key,
        (SCORE_SCALE as int - cfg.alpha as int) * ((SCORE_SCALE as int) / (cfg.rrf_k as int + r
            + 1)) >= SCORE_SCALE as int,
    ensures
        spec_fused_score(lex, sem, cfg, key) > 0,
{
    let scale = SCORE_SCALE as int;
    let k = cfg.rrf_k as int;
    let a = cfg.alpha as int;
    let b = scale - a;
    assert forall|i: int|
        0 <= i < lex.len() implies 0 <= #[trigger] spec_contribs(lex, cfg, a)[i] by {
        lemma_rrf_contrib_bounds(k, i, a);
    }
    assert forall|i: int|
        0 <= i < sem.len() implies 0 <= #[trigger] spec_contribs(sem, cfg, b)[i] by {
        lemma_rrf_contrib_bounds(k, i, b);
    }
    assert(spec_rrf_contrib(k, r, b) >= 1) by {
        lemma_div_is_ordered(scale, b * (scale / (k + r + 1)), scale);
        assert(scale / scale == 1) by {
            vstd::arithmetic::div_mod::lemma_div_multiples_vanish(1, scale);
        }
    }
    lemma_keyed_sum_at_least(paths_of(sem), spec_contribs(sem, cfg, b), key, sem.len() as int, r);
    lemma_keyed_sum_nonneg(paths_of(lex), spec_contribs(lex, cfg, a), key, lex.len() as int);
}

} // verus!
