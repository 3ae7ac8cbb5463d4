//! The search engine: extension filter, inverted term index, substring
//! search and scored search over a corpus handed in as path and text pairs.
use vstd::prelude::*;
use crate::text::{
    dedup, dedup_runs,
    slice_chars, chars_of, contains, count_matches, extract_terms, find, lemma_matched_count_bound, line_terms,
    lines, lower, lowercase, matched_count, query_terms, same_chars, split_lines, split_query,
    string_of, views,
};
use crate::snippet::{lemma_window_in_bounds, window_end, window_start, context_of, context_snippet, extract_snippet, snippet_text};

verus! {

/// One file of the corpus: its path, and its text, or `None` where it could
/// not be read as text.
#[derive(Clone, Debug)]
pub struct CorpusFile {
    pub path: String,
    pub content: Option<String>,
}

/// A file whose text contains a query, with an excerpt around the match.
#[derive(Clone, Debug)]
pub struct CodeSnippet {
    pub path: String,
    pub snippet: String,
}

/// A scored line. Its relevance is `matched_terms / query_terms`.
#[derive(Clone, Debug)]
pub struct SearchResult {
    pub path: String,
    pub line_number: usize,
    pub snippet: String,
    pub matched_terms: usize,
    pub query_terms: usize,
    pub file_type: String,
}

/// One occurrence of a term: the file and the zero-based line.
#[derive(Clone, Debug)]
pub struct Posting {
    pub term: String,
    pub path: String,
    pub line: usize,
}

#[derive(Clone, Copy, Debug)]
struct Candidate {
    file: usize,
    line: usize,
    matched: usize,
}

#[derive(Clone, Debug)]
pub struct DocumentIndex {
    corpus_root: String,
    supported_extensions: Vec<String>,
    postings: Vec<Posting>,
    indexed: bool,
    indexed_files: usize,
}

/// The largest excerpt of a substring match, in characters.
pub const SNIPPET_LEN: usize = 1024;

pub open spec fn last_index_of(s: Seq<char>, c: char) -> int
    decreases s.len(),
{
    if s.len() == 0 {
        -1
    } else if s.last() == c {
        s.len() - 1
    } else {
        last_index_of(s.drop_last(), c)
    }
}

/// The last component of a path.
pub open spec fn file_name(p: Seq<char>) -> Seq<char> {
    p.subrange(last_index_of(p, '/') + 1, p.len() as int)
}

/// What follows the last dot of the file name, where that dot is not its
/// first character; a name of `..` has none.
pub open spec fn extension(p: Seq<char>) -> Option<Seq<char>> {
    let n = file_name(p);
    let d = last_index_of(n, '.');
    if n == seq!['.', '.'] {
        None
    } else if d > 0 {
        Some(n.subrange(d + 1, n.len() as int))
    } else {
        None
    }
}

pub open spec fn allowed(exts: Seq<Seq<char>>, p: Seq<char>) -> bool {
    match extension(p) {
        Some(e) => exts.contains(e),
        None => false,
    }
}

pub open spec fn string_views(v: Seq<String>) -> Seq<Seq<char>> {
    v.map_values(|s: String| s@)
}

/// A file takes part in indexing and search: its extension is allowed and
/// its text was read.
pub open spec fn eligible(exts: Seq<Seq<char>>, f: CorpusFile) -> bool {
    allowed(exts, f.path@) && f.content is Some
}

pub open spec fn text_of(f: CorpusFile) -> Seq<char> {
    match f.content {
        Some(c) => c@,
        None => seq![],
    }
}

pub open spec fn eligible_count(exts: Seq<Seq<char>>, files: Seq<CorpusFile>) -> nat
    decreases files.len(),
{
    if files.len() == 0 {
        0
    } else {
        eligible_count(exts, files.drop_last()) + if eligible(exts, files.last()) {
            1nat
        } else {
            0nat
        }
    }
}

pub type PostingView = (Seq<char>, Seq<char>, nat);

pub open spec fn posting_views(v: Seq<Posting>) -> Seq<PostingView> {
    v.map_values(|p: Posting| (p.term@, p.path@, p.line as nat))
}

/// The postings of the lines of one file, line by line.
pub open spec fn line_postings(path: Seq<char>, ls: Seq<Seq<char>>) -> Seq<PostingView>
    decreases ls.len(),
{
    if ls.len() == 0 {
        seq![]
    } else {
        line_postings(path, ls.drop_last()) + line_terms(ls.last()).map_values(
            |t: Seq<char>| (t, path, (ls.len() - 1) as nat),
        )
    }
}

pub open spec fn file_postings(exts: Seq<Seq<char>>, f: CorpusFile) -> Seq<PostingView> {
    if eligible(exts, f) {
        line_postings(f.path@, lines(text_of(f)))
    } else {
        seq![]
    }
}

/// The postings of a whole corpus, file by file.
pub open spec fn corpus_postings(exts: Seq<Seq<char>>, files: Seq<CorpusFile>) -> Seq<PostingView>
    decreases files.len(),
{
    if files.len() == 0 {
        seq![]
    } else {
        corpus_postings(exts, files.drop_last()) + file_postings(exts, files.last())
    }
}

/// The occurrences of one term, in index order.
pub open spec fn postings_of(ps: Seq<PostingView>, t: Seq<char>) -> Seq<(Seq<char>, nat)>
    decreases ps.len(),
{
    if ps.len() == 0 {
        seq![]
    } else if ps.last().0 == t {
        postings_of(ps.drop_last(), t).push((ps.last().1, ps.last().2))
    } else {
        postings_of(ps.drop_last(), t)
    }
}

/// The distinct terms of the index, in order of first posting.
pub open spec fn distinct_terms(ps: Seq<PostingView>) -> Seq<Seq<char>> {
    dedup(ps.map_values(|p: PostingView| p.0))
}

/// What the engine holds, as plain values.
pub ghost struct IndexModel {
    pub root: Seq<char>,
    pub exts: Seq<Seq<char>>,
    pub postings: Seq<PostingView>,
    pub indexed: bool,
    pub indexed_files: nat,
}

/// The engine after a build over `files`, and the number it reports: the
/// count of files indexed, by whichever build made the index.
pub open spec fn build_model(m: IndexModel, files: Seq<CorpusFile>) -> (IndexModel, nat) {
    if m.indexed {
        (m, m.indexed_files)
    } else {
        (
            IndexModel {
                postings: corpus_postings(m.exts, files),
                indexed: true,
                indexed_files: eligible_count(m.exts, files),
                ..m
            },
            eligible_count(m.exts, files),
        )
    }
}

/// Building twice without changing the extensions reports the same count the
/// second time, and the second build does not depend on the corpus it is
/// handed: no file is read again.
pub proof fn lemma_build_idempotent(m: IndexModel, first: Seq<CorpusFile>, second: Seq<CorpusFile>)
    ensures
        build_model(build_model(m, first).0, second) == build_model(m, first),
{
}

pub open spec fn cap<A>(s: Seq<A>, limit: nat) -> Seq<A> {
    if s.len() <= limit {
        s
    } else {
        s.take(limit as int)
    }
}

/// Substring hits of the lowercased query `q`, file by file.
pub open spec fn snippet_hits(exts: Seq<Seq<char>>, files: Seq<CorpusFile>, q: Seq<char>) -> Seq<
    (Seq<char>, Seq<char>),
>
    decreases files.len(),
{
    if files.len() == 0 {
        seq![]
    } else {
        snippet_hits(exts, files.drop_last(), q) + file_hit(exts, files.last(), q)
    }
}

/// The substring hit of one file for the lowercased query `q`, if any.
pub open spec fn file_hit(exts: Seq<Seq<char>>, f: CorpusFile, q: Seq<char>) -> Seq<
    (Seq<char>, Seq<char>),
> {
    if eligible(exts, f) && contains(lower(text_of(f)), q) {
        seq![(f.path@, snippet_text(text_of(f), q, SNIPPET_LEN as nat))]
    } else {
        seq![]
    }
}

/// The files that pass the extension filter but whose text could not be read.
pub open spec fn skipped(exts: Seq<Seq<char>>, files: Seq<CorpusFile>) -> Seq<Seq<char>>
    decreases files.len(),
{
    if files.len() == 0 {
        seq![]
    } else {
        let f = files.last();
        skipped(exts, files.drop_last()) + if allowed(exts, f.path@) && f.content is None {
            seq![f.path@]
        } else {
            seq![]
        }
    }
}

pub open spec fn code_snippet_views(v: Seq<CodeSnippet>) -> Seq<(Seq<char>, Seq<char>)> {
    v.map_values(|s: CodeSnippet| (s.path@, s.snippet@))
}

/// A scoring line: its file's position in the corpus, its line number and the
/// number of query terms it matches.
pub type CandidateView = (nat, nat, nat);

pub open spec fn line_candidates(terms: Seq<Seq<char>>, fi: nat, ls: Seq<Seq<char>>) -> Seq<
    CandidateView,
>
    decreases ls.len(),
{
    if ls.len() == 0 {
        seq![]
    } else {
        let m = matched_count(terms, lower(ls.last()));
        line_candidates(terms, fi, ls.drop_last()) + if m > 0 {
            seq![(fi, (ls.len() - 1) as nat, m)]
        } else {
            seq![]
        }
    }
}

/// Every scoring line of the corpus, in corpus and line order.
pub open spec fn corpus_candidates(
    exts: Seq<Seq<char>>,
    terms: Seq<Seq<char>>,
    files: Seq<CorpusFile>,
) -> Seq<CandidateView>
    decreases files.len(),
{
    if files.len() == 0 {
        seq![]
    } else {
        let f = files.last();
        corpus_candidates(exts, terms, files.drop_last()) + if eligible(exts, f) {
            line_candidates(terms, (files.len() - 1) as nat, lines(text_of(f)))
        } else {
            seq![]
        }
    }
}

/// The candidates that match exactly `m` terms, in their order.
pub open spec fn at_level(c: Seq<CandidateView>, m: nat) -> Seq<CandidateView>
    decreases c.len(),
{
    if c.len() == 0 {
        seq![]
    } else {
        at_level(c.drop_last(), m) + if c.last().2 == m {
            seq![c.last()]
        } else {
            seq![]
        }
    }
}

/// The candidates matching `top`, then `top - 1`, ... terms, `k` levels in
/// all: a stable sort by descending score.
pub open spec fn ranked(c: Seq<CandidateView>, top: nat, k: nat) -> Seq<CandidateView>
    decreases k,
{
    if k == 0 {
        seq![]
    } else {
        ranked(c, top, (k - 1) as nat) + at_level(c, (top - (k - 1)) as nat)
    }
}

pub type ResultView = (Seq<char>, nat, Seq<char>, nat, nat, Seq<char>);

pub open spec fn unknown_type() -> Seq<char> {
    seq!['u', 'n', 'k', 'n', 'o', 'w', 'n']
}

pub open spec fn file_type(p: Seq<char>) -> Seq<char> {
    match extension(p) {
        Some(e) => e,
        None => unknown_type(),
    }
}

pub open spec fn result_of(files: Seq<CorpusFile>, n: nat, c: CandidateView) -> ResultView {
    let f = files[c.0 as int];
    (f.path@, c.1, context_of(lines(text_of(f)), c.1), c.2, n, file_type(f.path@))
}

pub open spec fn result_views(v: Seq<SearchResult>) -> Seq<ResultView> {
    v.map_values(
        |r: SearchResult|
            (
                r.path@,
                r.line_number as nat,
                r.snippet@,
                r.matched_terms as nat,
                r.query_terms as nat,
                r.file_type@,
            ),
    )
}

/// The scored results of query `q`: every scoring line ranked by descending
/// score, ties in corpus order, at most `limit` of them.
pub open spec fn scored_results(
    exts: Seq<Seq<char>>,
    files: Seq<CorpusFile>,
    q: Seq<char>,
    limit: nat,
) -> Seq<ResultView> {
    let ts = query_terms(q);
    let c = corpus_candidates(exts, ts, files);
    cap(ranked(c, ts.len(), ts.len()), limit).map_values(
        |x: CandidateView| result_of(files, ts.len(), x),
    )
}


spec fn candidate_views(v: Seq<Candidate>) -> Seq<CandidateView> {
    v.map_values(|c: Candidate| (c.file as nat, c.line as nat, c.matched as nat))
}

/// A candidate names an eligible file of the corpus, a line of it, and a
/// score between one term and all `n` of them.
pub open spec fn valid_candidate(
    exts: Seq<Seq<char>>,
    files: Seq<CorpusFile>,
    n: nat,
    c: CandidateView,
) -> bool {
    &&& c.0 < files.len()
    &&& eligible(exts, files[c.0 as int])
    &&& c.1 < lines(text_of(files[c.0 as int])).len()
    &&& 1 <= c.2 <= n
}

proof fn lemma_line_candidates(terms: Seq<Seq<char>>, fi: nat, ls: Seq<Seq<char>>)
    ensures
        forall|k: int|
            0 <= k < line_candidates(terms, fi, ls).len() ==> {
                let c = #[trigger] line_candidates(terms, fi, ls)[k];
                c.0 == fi && c.1 < ls.len() && 1 <= c.2 <= terms.len()
            },
    decreases ls.len(),
{
    if ls.len() > 0 {
        lemma_line_candidates(terms, fi, ls.drop_last());
        lemma_matched_count_bound(terms, lower(ls.last()));
        let a = line_candidates(terms, fi, ls.drop_last());
        let r = line_candidates(terms, fi, ls);
        assert forall|k: int| 0 <= k < r.len() implies ({
            let c = #[trigger] r[k];
            c.0 == fi && c.1 < ls.len() && 1 <= c.2 <= terms.len()
        }) by {
            if k < a.len() {
                assert(r[k] == a[k]);
            }
        }
    }
}

/// Every scoring line found in a corpus is a valid candidate of it.
pub proof fn lemma_candidates_valid(
    exts: Seq<Seq<char>>,
    terms: Seq<Seq<char>>,
    files: Seq<CorpusFile>,
)
    ensures
        forall|k: int|
            0 <= k < corpus_candidates(exts, terms, files).len() ==> valid_candidate(
                exts,
                files,
                terms.len(),
                #[trigger] corpus_candidates(exts, terms, files)[k],
            ),
    decreases files.len(),
{
    if files.len() > 0 {
        let pre = files.drop_last();
        lemma_candidates_valid(exts, terms, pre);
        let f = files.last();
        lemma_line_candidates(terms, (files.len() - 1) as nat, lines(text_of(f)));
        let c = corpus_candidates(exts, terms, files);
        let a = corpus_candidates(exts, terms, pre);
        assert forall|k: int| 0 <= k < c.len() implies valid_candidate(
            exts,
            files,
            terms.len(),
            #[trigger] c[k],
        ) by {
            if k < a.len() {
                assert(c[k] == a[k]);
                assert(files[c[k].0 as int] == pre[c[k].0 as int]);
            } else {
                assert(c[k] == line_candidates(terms, (files.len() - 1) as nat, lines(text_of(f)))[k
                    - a.len()]);
            }
        }
    }
}

proof fn lemma_at_level(
    exts: Seq<Seq<char>>,
    files: Seq<CorpusFile>,
    n: nat,
    c: Seq<CandidateView>,
    m: nat,
)
    requires
        forall|k: int| 0 <= k < c.len() ==> valid_candidate(exts, files, n, #[trigger] c[k]),
    ensures
        forall|k: int|
            0 <= k < at_level(c, m).len() ==> valid_candidate(
                exts,
                files,
                n,
                #[trigger] at_level(c, m)[k],
            ) && at_level(c, m)[k].2 == m,
    decreases c.len(),
{
    if c.len() > 0 {
        assert forall|k: int| 0 <= k < c.drop_last().len() implies valid_candidate(
            exts,
            files,
            n,
            #[trigger] c.drop_last()[k],
        ) by {
            assert(c.drop_last()[k] == c[k]);
        }
        lemma_at_level(exts, files, n, c.drop_last(), m);
        let a = at_level(c.drop_last(), m);
        let r = at_level(c, m);
        assert forall|k: int| 0 <= k < r.len() implies valid_candidate(
            exts,
            files,
            n,
            #[trigger] r[k],
        ) && r[k].2 == m by {
            if k < a.len() {
                assert(r[k] == a[k]);
            } else {
                assert(r[k] == c.last());
                assert(valid_candidate(exts, files, n, c[c.len() - 1]));
            }
        }
    }
}

/// Ranking keeps only valid candidates, with scores from `top - k + 1` to
/// `top`, in non-increasing order of score.
pub proof fn lemma_ranked(
    exts: Seq<Seq<char>>,
    files: Seq<CorpusFile>,
    c: Seq<CandidateView>,
    top: nat,
    k: nat,
)
    requires
        k <= top,
        forall|i: int| 0 <= i < c.len() ==> valid_candidate(exts, files, top, #[trigger] c[i]),
    ensures
        forall|i: int|
            0 <= i < ranked(c, top, k).len() ==> valid_candidate(
                exts,
                files,
                top,
                #[trigger] ranked(c, top, k)[i],
            ) && top - k < ranked(c, top, k)[i].2,
        forall|i: int, j: int|
            0 <= i < j < ranked(c, top, k).len() ==> #[trigger] ranked(c, top, k)[i].2
                >= #[trigger] ranked(c, top, k)[j].2,
    decreases k,
{
    if k > 0 {
        lemma_ranked(exts, files, c, top, (k - 1) as nat);
        let m = (top - (k - 1)) as nat;
        lemma_at_level(exts, files, top, c, m);
        let a = ranked(c, top, (k - 1) as nat);
        let b = at_level(c, m);
        let r = ranked(c, top, k);
        assert(r == a + b);
        assert forall|i: int| 0 <= i < r.len() implies valid_candidate(
            exts,
            files,
            top,
            #[trigger] r[i],
        ) && top - k < r[i].2 by {
            if i < a.len() {
                assert(r[i] == a[i]);
            } else {
                assert(r[i] == b[i - a.len()]);
            }
        }
        assert forall|i: int, j: int| 0 <= i < j < r.len() implies #[trigger] r[i].2
            >= #[trigger] r[j].2 by {
            if j < a.len() {
                assert(r[i] == a[i] && r[j] == a[j]);
            } else if i < a.len() {
                assert(r[i] == a[i] && r[j] == b[j - a.len()]);
            } else {
                assert(r[i] == b[i - a.len()] && r[j] == b[j - a.len()]);
            }
        }
    }
}

/// How many candidates match more than `lo` and at most `hi` terms.
pub open spec fn count_between(c: Seq<CandidateView>, lo: nat, hi: nat) -> nat
    decreases c.len(),
{
    if c.len() == 0 {
        0
    } else {
        count_between(c.drop_last(), lo, hi) + if lo < c.last().2 && c.last().2 <= hi {
            1nat
        } else {
            0nat
        }
    }
}

proof fn lemma_at_level_len(c: Seq<CandidateView>, m: nat)
    requires
        m >= 1,
    ensures
        at_level(c, m).len() == count_between(c, (m - 1) as nat, m),
    decreases c.len(),
{
    if c.len() > 0 {
        lemma_at_level_len(c.drop_last(), m);
    }
}

proof fn lemma_count_split(c: Seq<CandidateView>, a: nat, b: nat, d: nat)
    requires
        a <= b <= d,
    ensures
        count_between(c, a, b) + count_between(c, b, d) == count_between(c, a, d),
    decreases c.len(),
{
    if c.len() > 0 {
        lemma_count_split(c.drop_last(), a, b, d);
    }
}

proof fn lemma_count_all(c: Seq<CandidateView>, top: nat)
    requires
        forall|i: int| 0 <= i < c.len() ==> 1 <= (#[trigger] c[i]).2 <= top,
    ensures
        count_between(c, 0, top) == c.len(),
    decreases c.len(),
{
    if c.len() > 0 {
        assert forall|i: int| 0 <= i < c.drop_last().len() implies 1 <= (
        #[trigger] c.drop_last()[i]).2 <= top by {
            assert(c.drop_last()[i] == c[i]);
        }
        lemma_count_all(c.drop_last(), top);
        assert(1 <= c[c.len() - 1].2 <= top);
    }
}

proof fn lemma_ranked_len(c: Seq<CandidateView>, top: nat, k: nat)
    requires
        k <= top,
    ensures
        ranked(c, top, k).len() == count_between(c, (top - k) as nat, top),
    decreases k,
{
    if k > 0 {
        lemma_ranked_len(c, top, (k - 1) as nat);
        lemma_at_level_len(c, (top - (k - 1)) as nat);
        lemma_count_split(c, (top - k) as nat, (top - (k - 1)) as nat, top);
    } else {
        lemma_count_split(c, top, top, top);
    }
}

/// Ranking loses no candidate: when every candidate matches between one and
/// `n` terms, the ranking over `n` levels has as many entries as there are
/// candidates.
pub proof fn lemma_ranked_keeps_all(c: Seq<CandidateView>, n: nat)
    requires
        forall|i: int| 0 <= i < c.len() ==> 1 <= (#[trigger] c[i]).2 <= n,
    ensures
        ranked(c, n, n).len() == c.len(),
{
    lemma_ranked_len(c, n, n);
    lemma_count_all(c, n);
}

/// Every substring hit comes from a file whose extension is allowed.
pub proof fn lemma_hits_allowed(exts: Seq<Seq<char>>, files: Seq<CorpusFile>, q: Seq<char>)
    ensures
        forall|k: int|
            0 <= k < snippet_hits(exts, files, q).len() ==> allowed(
                exts,
                (#[trigger] snippet_hits(exts, files, q)[k]).0,
            ),
    decreases files.len(),
{
    if files.len() > 0 {
        lemma_hits_allowed(exts, files.drop_last(), q);
        let a = snippet_hits(exts, files.drop_last(), q);
        let h = snippet_hits(exts, files, q);
        assert forall|k: int| 0 <= k < h.len() implies allowed(exts, (#[trigger] h[k]).0) by {
            if k < a.len() {
                assert(h[k] == a[k]);
            }
        }
    }
}

/// The hits of a prefix of the corpus are a prefix of the hits of the corpus.
pub proof fn lemma_hits_prefix(exts: Seq<Seq<char>>, files: Seq<CorpusFile>, q: Seq<char>, i: int, j: int)
    requires
        0 <= i <= j <= files.len(),
    ensures
        snippet_hits(exts, files.take(i), q).len() <= snippet_hits(exts, files.take(j), q).len(),
        snippet_hits(exts, files.take(j), q).take(snippet_hits(exts, files.take(i), q).len() as int)
            == snippet_hits(exts, files.take(i), q),
    decreases j - i,
{
    let a = snippet_hits(exts, files.take(i), q);
    if i < j {
        lemma_hits_prefix(exts, files, q, i, j - 1);
        assert(files.take(j).drop_last() =~= files.take(j - 1));
        let b = snippet_hits(exts, files.take(j - 1), q);
        let c = snippet_hits(exts, files.take(j), q);
        assert(c.take(a.len() as int) =~= b.take(a.len() as int));
    } else {
        assert(a.take(a.len() as int) =~= a);
    }
}

/// Every line that scored search returns is a line of an eligible file, and
/// its context window starts at or after line 0 and ends at or before the
/// file's last line, however short the file.
pub proof fn lemma_scored_windows_in_bounds(
    exts: Seq<Seq<char>>,
    files: Seq<CorpusFile>,
    q: Seq<char>,
)
    ensures
        forall|k: int|
            0 <= k < ranked(
                corpus_candidates(exts, query_terms(q), files),
                query_terms(q).len(),
                query_terms(q).len(),
            ).len() ==> {
                let x = #[trigger] ranked(
                    corpus_candidates(exts, query_terms(q), files),
                    query_terms(q).len(),
                    query_terms(q).len(),
                )[k];
                let len = lines(text_of(files[x.0 as int])).len();
                &&& x.0 < files.len()
                &&& eligible(exts, files[x.0 as int])
                &&& 0 <= window_start(x.1) <= x.1 < window_end(x.1, len) <= len
            },
{
    let ts = query_terms(q);
    let c = corpus_candidates(exts, ts, files);
    lemma_candidates_valid(exts, ts, files);
    lemma_ranked(exts, files, c, ts.len(), ts.len());
    let r = ranked(c, ts.len(), ts.len());
    assert forall|k: int| 0 <= k < r.len() implies {
        let x = #[trigger] r[k];
        let len = lines(text_of(files[x.0 as int])).len();
        &&& x.0 < files.len()
        &&& eligible(exts, files[x.0 as int])
        &&& 0 <= window_start(x.1) <= x.1 < window_end(x.1, len) <= len
    } by {
        let x = r[k];
        assert(valid_candidate(exts, files, ts.len(), x));
        lemma_window_in_bounds(x.1, lines(text_of(files[x.0 as int])).len());
    }
}

/// Once the first `k` files give `limit` substring hits, the files after
/// them cannot change the result: a search may stop reading there.
pub proof fn lemma_hits_settled_at_cap(
    exts: Seq<Seq<char>>,
    files: Seq<CorpusFile>,
    q: Seq<char>,
    k: int,
    limit: nat,
)
    requires
        0 <= k <= files.len(),
        snippet_hits(exts, files.take(k), q).len() >= limit,
    ensures
        cap(snippet_hits(exts, files, q), limit) == cap(snippet_hits(exts, files.take(k), q), limit),
{
    lemma_hits_prefix(exts, files, q, k, files.len() as int);
    assert(files.take(files.len() as int) =~= files);
    let a = snippet_hits(exts, files.take(k), q);
    let all = snippet_hits(exts, files, q);
    assert(all.take(a.len() as int) == a);
    if a.len() > limit {
        assert(all.take(limit as int) =~= a.take(limit as int));
    } else if all.len() > limit {
        assert(all.take(limit as int) =~= a);
    } else {
        assert(all =~= a);
    }
}

/// Every posting of a corpus comes from a file whose extension is allowed.
pub proof fn lemma_postings_allowed(exts: Seq<Seq<char>>, files: Seq<CorpusFile>)
    ensures
        forall|k: int|
            0 <= k < corpus_postings(exts, files).len() ==> allowed(
                exts,
                (#[trigger] corpus_postings(exts, files)[k]).1,
            ),
    decreases files.len(),
{
    if files.len() > 0 {
        lemma_postings_allowed(exts, files.drop_last());
        let f = files.last();
        lemma_line_postings_path(f.path@, lines(text_of(f)));
        let a = corpus_postings(exts, files.drop_last());
        let p = corpus_postings(exts, files);
        assert forall|k: int| 0 <= k < p.len() implies allowed(exts, (#[trigger] p[k]).1) by {
            if k < a.len() {
                assert(p[k] == a[k]);
            } else {
                assert(p[k] == file_postings(exts, f)[k - a.len()]);
            }
        }
    }
}

/// A file whose extension is not allowed has no posting in the index, and
/// no substring hit, whatever its text.
pub proof fn lemma_filtered_file_absent(
    exts: Seq<Seq<char>>,
    files: Seq<CorpusFile>,
    q: Seq<char>,
    f: CorpusFile,
)
    requires
        !allowed(exts, f.path@),
    ensures
        forall|k: int|
            0 <= k < corpus_postings(exts, files).len() ==> (#[trigger] corpus_postings(
                exts,
                files,
            )[k]).1 != f.path@,
        forall|k: int|
            0 <= k < snippet_hits(exts, files, q).len() ==> (#[trigger] snippet_hits(
                exts,
                files,
                q,
            )[k]).0 != f.path@,
{
    lemma_postings_allowed(exts, files);
    lemma_hits_allowed(exts, files, q);
}

proof fn lemma_line_postings_path(path: Seq<char>, ls: Seq<Seq<char>>)
    ensures
        forall|k: int|
            0 <= k < line_postings(path, ls).len() ==> (#[trigger] line_postings(path, ls)[k]).1
                == path,
    decreases ls.len(),
{
    if ls.len() > 0 {
        lemma_line_postings_path(path, ls.drop_last());
        let a = line_postings(path, ls.drop_last());
        let p = line_postings(path, ls);
        assert forall|k: int| 0 <= k < p.len() implies (#[trigger] p[k]).1 == path by {
            if k < a.len() {
                assert(p[k] == a[k]);
            }
        }
    }
}

fn last_index(s: &Vec<char>, c: char) -> (r: Option<usize>)
    ensures
        match r {
            Some(i) => i < s.len() && last_index_of(s@, c) == i as int,
            None => last_index_of(s@, c) == -1,
        },
{
    let mut found: Option<usize> = None;
    let mut i: usize = 0;
    while i < s.len()
        invariant
            i <= s.len(),
            match found {
                Some(k) => k < i && last_index_of(s@.take(i as int), c) == k as int,
                None => last_index_of(s@.take(i as int), c) == -1,
            },
        decreases s.len() - i,
    {
        proof {
            assert(s@.take(i + 1).drop_last() =~= s@.take(i as int));
        }
        if s[i] == c {
            found = Some(i);
        }
        i += 1;
    }
    assert(s@.take(s.len() as int) =~= s@);
    found
}

/// The extension of a path, as `extension` states it.
pub fn extension_of(path: &Vec<char>) -> (r: Option<Vec<char>>)
    ensures
        match r {
            Some(e) => extension(path@) == Some(e@),
            None => extension(path@) is None,
        },
{
    let start = match last_index(path, '/') {
        Some(k) => k + 1,
        None => 0,
    };
    let name = slice_chars(path, start, path.len());
    assert(name@ == file_name(path@));
    if name.len() == 2 && name[0] == '.' && name[1] == '.' {
        assert(name@ =~= seq!['.', '.']);
        return None;
    }
    match last_index(&name, '.') {
        Some(d) => {
            if d > 0 {
                Some(slice_chars(&name, d + 1, name.len()))
            } else {
                None
            }
        },
        None => None,
    }
}

fn has_extension(exts: &Vec<String>, e: &Vec<char>) -> (r: bool)
    ensures
        r == string_views(exts@).contains(e@),
{
    let mut i: usize = 0;
    while i < exts.len()
        invariant
            i <= exts.len(),
            forall|k: int| 0 <= k < i ==> exts@[k]@ != e@,
        decreases exts.len() - i,
    {
        if same_chars(&chars_of(exts[i].as_str()), e) {
            assert(string_views(exts@)[i as int] == e@);
            return true;
        }
        i += 1;
    }
    assert forall|k: int| 0 <= k < string_views(exts@).len() implies string_views(exts@)[k]
        != e@ by {
        assert(string_views(exts@)[k] == exts@[k]@);
    }
    false
}

fn file_type_of(path: &String) -> (r: String)
    ensures
        r@ == file_type(path@),
{
    match extension_of(&chars_of(path.as_str())) {
        Some(e) => string_of(&e),
        None => {
            let mut u: Vec<char> = Vec::new();
            u.push('u');
            u.push('n');
            u.push('k');
            u.push('n');
            u.push('o');
            u.push('w');
            u.push('n');
            assert(u@ =~= unknown_type());
            string_of(&u)
        },
    }
}

/// Appends the postings of the lines of `content`.
fn index_file(postings: &mut Vec<Posting>, path: &String, content: &String)
    ensures
        posting_views(final(postings)@) == posting_views(old(postings)@) + line_postings(
            path@,
            lines(content@),
        ),
{
    let ls = split_lines(&chars_of(content.as_str()));
    let ghost lv = views(ls@);
    let ghost base = posting_views(postings@);
    let mut j: usize = 0;
    while j < ls.len()
        invariant
            j <= ls.len(),
            lv == views(ls@),
            lv == lines(content@),
            posting_views(postings@) == base + line_postings(path@, lv.take(j as int)),
        decreases ls.len() - j,
    {
        let terms = extract_terms(&ls[j]);
        let ghost ts = views(terms@);
        let ghost before = posting_views(postings@);
        let mut k: usize = 0;
        while k < terms.len()
            invariant
                k <= terms.len(),
                j < ls.len(),
                ts == views(terms@),
                posting_views(postings@) == before + ts.take(k as int).map_values(
                    |t: Seq<char>| (t, path@, j as nat),
                ),
            decreases terms.len() - k,
        {
            let ghost pv = posting_views(postings@);
            postings.push(Posting { term: string_of(&terms[k]), path: path.clone(), line: j });
            assert(posting_views(postings@) =~= pv.push((ts[k as int], path@, j as nat)));
            k += 1;
            assert(ts.take(k as int).map_values(|t: Seq<char>| (t, path@, j as nat)) =~= ts.take(
                k - 1,
            ).map_values(|t: Seq<char>| (t, path@, j as nat)).push((ts[k - 1], path@, j as nat)));
        }
        proof {
            assert(ts.take(ts.len() as int) =~= ts);
            assert(lv.take(j + 1).drop_last() =~= lv.take(j as int));
            assert(lv.take(j + 1).last() == ls@[j as int]@);
            assert(ts == line_terms(lv.take(j + 1).last()));
            assert(ts.map_values(|t: Seq<char>| (t, path@, j as nat)) =~= line_terms(
                lv.take(j + 1).last(),
            ).map_values(|t: Seq<char>| (t, path@, (lv.take(j + 1).len() - 1) as nat)));
        }
        j += 1;
    }
    assert(lv.take(ls.len() as int) =~= lv);
}

impl View for DocumentIndex {
    type V = IndexModel;

    closed spec fn view(&self) -> IndexModel {
        IndexModel {
            root: self.corpus_root@,
            exts: string_views(self.supported_extensions@),
            postings: posting_views(self.postings@),
            indexed: self.indexed,
            indexed_files: self.indexed_files as nat,
        }
    }
}

impl DocumentIndex {
    /// The index holds postings only once built.
    pub open spec fn wf(&self) -> bool {
        self@.indexed || (self@.postings.len() == 0 && self@.indexed_files == 0)
    }

    pub fn new(corpus_root: String, extensions: Vec<String>) -> (r: Self)
        ensures
            r.wf(),
            r@ == (IndexModel {
                root: corpus_root@,
                exts: string_views(extensions@),
                postings: seq![],
                indexed: false,
                indexed_files: 0,
            }),
    {
        let r = DocumentIndex {
            corpus_root,
            supported_extensions: extensions,
            postings: Vec::new(),
            indexed: false,
            indexed_files: 0,
        };
        assert(posting_views(r.postings@) =~= seq![]);
        r
    }

    pub fn corpus_root(&self) -> (r: &String)
        ensures
            r@ == self@.root,
    {
        &self.corpus_root
    }

    pub fn is_indexed(&self) -> (r: bool)
        ensures
            r == self@.indexed,
    {
        self.indexed
    }

    /// The number of files the current index was built from.
    pub fn indexed_file_count(&self) -> (r: usize)
        ensures
            r == self@.indexed_files,
    {
        self.indexed_files
    }

    /// The number of distinct terms in the index.
    pub fn term_count(&self) -> (r: usize)
        ensures
            r == distinct_terms(self@.postings).len(),
    {
        let ghost pv = self@.postings;
        let mut all: Vec<Vec<char>> = Vec::new();
        let mut i: usize = 0;
        while i < self.postings.len()
            invariant
                i <= self.postings.len(),
                pv == posting_views(self.postings@),
                views(all@) == pv.take(i as int).map_values(|p: PostingView| p.0),
            decreases self.postings.len() - i,
        {
            let ghost before = views(all@);
            all.push(chars_of(self.postings[i].term.as_str()));
            assert(views(all@) =~= before.push(pv[i as int].0));
            i += 1;
            assert(pv.take(i as int).map_values(|p: PostingView| p.0) =~= pv.take(i - 1).map_values(
                |p: PostingView| p.0,
            ).push(pv[i - 1].0));
        }
        assert(pv.take(pv.len() as int) =~= pv);
        dedup_runs(all).len()
    }

    /// Whether a path passes the extension filter.
    pub fn is_indexable_file(&self, path: &str) -> (r: bool)
        ensures
            r == allowed(self@.exts, path@),
    {
        match extension_of(&chars_of(path)) {
            Some(e) => has_extension(&self.supported_extensions, &e),
            None => false,
        }
    }

    fn is_eligible(&self, f: &CorpusFile) -> (r: bool)
        ensures
            r == eligible(self@.exts, *f),
    {
        f.content.is_some() && self.is_indexable_file(f.path.as_str())
    }

    /// Builds the index over `corpus` unless it is built already; returns the
    /// number of files indexed.
    pub fn build_index(&mut self, corpus: &Vec<CorpusFile>) -> (r: usize)
        requires
            old(self).wf(),
        ensures
            final(self).wf(),
            (final(self)@, r as nat) == build_model(old(self)@, corpus@),
    {
        if self.indexed {
            return self.indexed_files;
        }
        let ghost exts = self@.exts;
        let mut count: usize = 0;
        let mut i: usize = 0;
        while i < corpus.len()
            invariant
                i <= corpus.len(),
                count <= i,
                !self.indexed,
                self@.exts == exts,
                self@.root == old(self)@.root,
                exts == old(self)@.exts,
                self.indexed_files == 0,
                count == eligible_count(exts, corpus@.take(i as int)),
                self@.postings == corpus_postings(exts, corpus@.take(i as int)),
            decreases corpus.len() - i,
        {
            proof {
                assert(corpus@.take(i + 1).drop_last() =~= corpus@.take(i as int));
            }
            let f = &corpus[i];
            if self.is_eligible(f) {
                match &f.content {
                    Some(text) => {
                        index_file(&mut self.postings, &f.path, text);
                    },
                    None => {},
                }
                count += 1;
            }
            i += 1;
        }
        assert(corpus@.take(corpus.len() as int) =~= corpus@);
        self.indexed = true;
        self.indexed_files = count;
        count
    }

    /// Replaces the allowed extensions and drops the index.
    pub fn update_extensions(&mut self, extensions: Vec<String>)
        ensures
            final(self).wf(),
            final(self)@ == (IndexModel {
                exts: string_views(extensions@),
                postings: seq![],
                indexed: false,
                indexed_files: 0,
                ..old(self)@
            }),
    {
        self.supported_extensions = extensions;
        self.postings = Vec::new();
        self.indexed = false;
        self.indexed_files = 0;
        assert(posting_views(self.postings@) =~= seq![]);
    }

    /// Reserved for incremental re-indexing; changes nothing.
    pub fn refresh(&self) {
    }

    /// The occurrences of `term`, compared in lower case, in index order.
    pub fn postings_for(&self, term: &str) -> (r: Vec<(String, usize)>)
        ensures
            r@.map_values(|p: (String, usize)| (p.0@, p.1 as nat)) == postings_of(
                self@.postings,
                lower(term@),
            ),
    {
        let t = string_of(&lowercase(&chars_of(term)));
        let ghost pv = self@.postings;
        let mut out: Vec<(String, usize)> = Vec::new();
        let mut i: usize = 0;
        while i < self.postings.len()
            invariant
                i <= self.postings.len(),
                pv == posting_views(self.postings@),
                t@ == lower(term@),
                out@.map_values(|p: (String, usize)| (p.0@, p.1 as nat)) == postings_of(
                    pv.take(i as int),
                    t@,
                ),
            decreases self.postings.len() - i,
        {
            proof {
                assert(pv.take(i + 1).drop_last() =~= pv.take(i as int));
            }
            let ghost ov = out@.map_values(|p: (String, usize)| (p.0@, p.1 as nat));
            if self.postings[i].term == t {
                out.push((self.postings[i].path.clone(), self.postings[i].line));
                assert(out@.map_values(|p: (String, usize)| (p.0@, p.1 as nat)) =~= ov.push(
                    (pv[i as int].1, pv[i as int].2),
                ));
            }
            i += 1;
        }
        assert(pv.take(pv.len() as int) =~= pv);
        out
    }

    /// The files whose text contains `query`, compared in lower case, each with
    /// an excerpt around the first match, in corpus order; the scan stops once
    /// `limit` files are found.
    pub fn search_relevant_code(&self, corpus: &Vec<CorpusFile>, query: &str, limit: usize) -> (r:
        Vec<CodeSnippet>)
        ensures
            code_snippet_views(r@) == cap(
                snippet_hits(self@.exts, corpus@, lower(query@)),
                limit as nat,
            ),
            r.len() <= limit,
            forall|k: int| 0 <= k < r.len() ==> allowed(self@.exts, #[trigger] r@[k].path@),
    {
        let q = lowercase(&chars_of(query));
        let ghost exts = self@.exts;
        let mut out: Vec<CodeSnippet> = Vec::new();
        let mut i: usize = 0;
        while i < corpus.len() && out.len() < limit
            invariant
                i <= corpus.len(),
                out.len() <= limit,
                exts == self@.exts,
                q@ == lower(query@),
                code_snippet_views(out@) == snippet_hits(exts, corpus@.take(i as int), q@),
            decreases corpus.len() - i,
        {
            proof {
                assert(corpus@.take(i + 1).drop_last() =~= corpus@.take(i as int));
            }
            let ghost ov = code_snippet_views(out@);
            match self.hit_of(&corpus[i], &q) {
                Some(h) => {
                    out.push(h);
                },
                None => {},
            }
            assert(code_snippet_views(out@) =~= ov + file_hit(exts, corpus@[i as int], q@));
            assert(corpus@.take(i + 1).last() == corpus@[i as int]);
            i += 1;
        }
        proof {
            lemma_hits_prefix(exts, corpus@, q@, i as int, corpus.len() as int);
            assert(corpus@.take(corpus.len() as int) =~= corpus@);
            lemma_hits_allowed(exts, corpus@, q@);
            let all = snippet_hits(exts, corpus@, q@);
            assert forall|k: int| 0 <= k < out.len() implies allowed(
                exts,
                #[trigger] out@[k].path@,
            ) by {
                assert(code_snippet_views(out@)[k] == all[k]);
            }
        }
        out
    }

    /// The paths of the files that pass the extension filter but were not
    /// read, in corpus order: the files that indexing and search skip.
    pub fn skipped_files(&self, corpus: &Vec<CorpusFile>) -> (r: Vec<String>)
        ensures
            string_views(r@) == skipped(self@.exts, corpus@),
    {
        let ghost exts = self@.exts;
        let mut out: Vec<String> = Vec::new();
        let mut i: usize = 0;
        while i < corpus.len()
            invariant
                i <= corpus.len(),
                exts == self@.exts,
                string_views(out@) == skipped(exts, corpus@.take(i as int)),
            decreases corpus.len() - i,
        {
            proof {
                assert(corpus@.take(i + 1).drop_last() =~= corpus@.take(i as int));
            }
            let f = &corpus[i];
            if f.content.is_none() && self.is_indexable_file(f.path.as_str()) {
                let ghost before = string_views(out@);
                out.push(f.path.clone());
                assert(string_views(out@) =~= before.push(f.path@));
            }
            i += 1;
        }
        assert(corpus@.take(corpus.len() as int) =~= corpus@);
        out
    }

    fn hit_of(&self, f: &CorpusFile, q: &Vec<char>) -> (r: Option<CodeSnippet>)
        ensures
            file_hit(self@.exts, *f, q@) == match r {
                Some(h) => seq![(h.path@, h.snippet@)],
                None => seq![],
            },
    {
        if self.is_indexable_file(f.path.as_str()) {
            match &f.content {
                Some(text) => {
                    let c = chars_of(text.as_str());
                    if find(&lowercase(&c), q).is_some() {
                        let sn = extract_snippet(&c, q, SNIPPET_LEN);
                        return Some(CodeSnippet { path: f.path.clone(), snippet: string_of(&sn) });
                    }
                },
                None => {},
            }
        }
        None
    }

    /// One step of a substring search that reads the corpus one file at a
    /// time: while fewer than `limit` snippets are found, adds the hit of
    /// `file`, if any. Returns whether the search is complete, after which no
    /// further file needs to be read.
    pub fn search_relevant_code_step(
        &self,
        found: &mut Vec<CodeSnippet>,
        file: &CorpusFile,
        query: &str,
        limit: usize,
    ) -> (done: bool)
        ensures
            code_snippet_views(final(found)@) == code_snippet_views(old(found)@) + if old(
                found,
            ).len() < limit {
                file_hit(self@.exts, *file, lower(query@))
            } else {
                seq![]
            },
            done == (final(found).len() >= limit),
    {
        if found.len() < limit {
            let q = lowercase(&chars_of(query));
            let ghost before = code_snippet_views(found@);
            match self.hit_of(file, &q) {
                Some(h) => {
                    found.push(h);
                    assert(code_snippet_views(found@) =~= before + file_hit(
                        self@.exts,
                        *file,
                        q@,
                    ));
                },
                None => {
                    assert(code_snippet_views(found@) =~= before + file_hit(
                        self@.exts,
                        *file,
                        q@,
                    ));
                },
            }
        } else {
            assert(code_snippet_views(found@) =~= code_snippet_views(found@) + seq![]);
        }
        found.len() >= limit
    }

    fn collect_candidates(&self, corpus: &Vec<CorpusFile>, terms: &Vec<Vec<char>>) -> (r: Vec<
        Candidate,
    >)
        ensures
            candidate_views(r@) == corpus_candidates(self@.exts, views(terms@), corpus@),
    {
        let ghost exts = self@.exts;
        let ghost ts = views(terms@);
        let mut out: Vec<Candidate> = Vec::new();
        let mut i: usize = 0;
        while i < corpus.len()
            invariant
                i <= corpus.len(),
                exts == self@.exts,
                ts == views(terms@),
                candidate_views(out@) == corpus_candidates(exts, ts, corpus@.take(i as int)),
            decreases corpus.len() - i,
        {
            proof {
                assert(corpus@.take(i + 1).drop_last() =~= corpus@.take(i as int));
                assert(corpus@.take(i + 1).last() == corpus@[i as int]);
            }
            let f = &corpus[i];
            if self.is_eligible(f) {
                match &f.content {
                    Some(text) => {
                        let ls = split_lines(&chars_of(text.as_str()));
                        let ghost lv = views(ls@);
                        let ghost base = candidate_views(out@);
                        let mut j: usize = 0;
                        while j < ls.len()
                            invariant
                                j <= ls.len(),
                                i < corpus.len(),
                                lv == views(ls@),
                                ts == views(terms@),
                                candidate_views(out@) == base + line_candidates(
                                    ts,
                                    i as nat,
                                    lv.take(j as int),
                                ),
                            decreases ls.len() - j,
                        {
                            proof {
                                assert(lv.take(j + 1).drop_last() =~= lv.take(j as int));
                                assert(lv.take(j + 1).last() == ls@[j as int]@);
                            }
                            let m = count_matches(terms, &lowercase(&ls[j]));
                            if m > 0 {
                                let ghost ov = candidate_views(out@);
                                out.push(Candidate { file: i, line: j, matched: m });
                                assert(candidate_views(out@) =~= ov.push(
                                    (i as nat, j as nat, m as nat),
                                ));
                            }
                            j += 1;
                        }
                        assert(lv.take(ls.len() as int) =~= lv);
                    },
                    None => {},
                }
            }
            i += 1;
        }
        assert(corpus@.take(corpus.len() as int) =~= corpus@);
        out
    }

    /// Scores every line of every eligible file by the query terms it
    /// contains, and returns the best `limit` lines, highest score first,
    /// ties in corpus order, each with the lines around it.
    pub fn search_with_scoring(&self, corpus: &Vec<CorpusFile>, query: &str, limit: usize) -> (r:
        Vec<SearchResult>)
        ensures
            result_views(r@) == scored_results(self@.exts, corpus@, query@, limit as nat),
            r.len() <= limit,
            r.len() == cap(
                corpus_candidates(self@.exts, query_terms(query@), corpus@),
                limit as nat,
            ).len(),
            forall|k: int|
                0 <= k < r.len() ==> 0 < (#[trigger] r@[k]).matched_terms <= r@[k].query_terms
                    && allowed(self@.exts, r@[k].path@),
            forall|i: int, j: int|
                0 <= i < j < r.len() ==> (#[trigger] r@[i]).matched_terms
                    >= (#[trigger] r@[j]).matched_terms,
    {
        let terms = split_query(query);
        let n = terms.len();
        let ghost exts = self@.exts;
        let ghost ts = views(terms@);
        let cands = self.collect_candidates(corpus, &terms);
        let ghost cv = candidate_views(cands@);
        let order = rank(&cands, n);
        let ghost ov = candidate_views(order@);
        proof {
            lemma_candidates_valid(exts, ts, corpus@);
            lemma_ranked(exts, corpus@, cv, n as nat, n as nat);
            assert forall|i: int| 0 <= i < cv.len() implies 1 <= (#[trigger] cv[i]).2 <= n by {
                assert(valid_candidate(exts, corpus@, n as nat, cv[i]));
            }
            lemma_ranked_keeps_all(cv, n as nat);
        }
        let mut out: Vec<SearchResult> = Vec::new();
        let mut k: usize = 0;
        while k < order.len() && k < limit
            invariant
                k <= order.len(),
                k <= limit,
                n == ts.len(),
                ov == candidate_views(order@),
                ov == ranked(cv, n as nat, n as nat),
                forall|x: int|
                    0 <= x < ov.len() ==> valid_candidate(exts, corpus@, n as nat, #[trigger] ov[x]),
                result_views(out@) == ov.take(k as int).map_values(
                    |x: CandidateView| result_of(corpus@, n as nat, x),
                ),
            decreases order.len() - k,
        {
            let c = order[k];
            assert(valid_candidate(exts, corpus@, n as nat, ov[k as int]));
            let f = &corpus[c.file];
            match &f.content {
                Some(text) => {
                    let ls = split_lines(&chars_of(text.as_str()));
                    let snippet = context_snippet(&ls, c.line);
                    let ghost before = result_views(out@);
                    out.push(
                        SearchResult {
                            path: f.path.clone(),
                            line_number: c.line,
                            snippet: string_of(&snippet),
                            matched_terms: c.matched,
                            query_terms: n,
                            file_type: file_type_of(&f.path),
                        },
                    );
                    assert(result_views(out@) =~= before.push(result_of(corpus@, n as nat, ov[k as int])));
                },
                None => {},
            }
            k += 1;
            assert(ov.take(k as int).map_values(|x: CandidateView| result_of(corpus@, n as nat, x))
                =~= ov.take(k - 1).map_values(|x: CandidateView| result_of(corpus@, n as nat, x)).push(
                result_of(corpus@, n as nat, ov[k - 1]),
            ));
        }
        proof {
            if ov.len() <= limit {
                assert(ov.take(k as int) =~= ov);
            }
            assert forall|x: int| 0 <= x < out.len() implies 0 < (#[trigger] out@[x]).matched_terms
                <= out@[x].query_terms && allowed(exts, out@[x].path@) by {
                assert(result_views(out@)[x] == result_of(corpus@, n as nat, ov[x]));
            }
            assert forall|x: int, y: int| 0 <= x < y < out.len() implies (#[trigger] out@[x]).matched_terms
                >= (#[trigger] out@[y]).matched_terms by {
                assert(result_views(out@)[x] == result_of(corpus@, n as nat, ov[x]));
                assert(result_views(out@)[y] == result_of(corpus@, n as nat, ov[y]));
            }
        }
        out
    }
}

/// Orders the candidates by descending score, keeping corpus order among equals.
fn rank(cands: &Vec<Candidate>, n: usize) -> (r: Vec<Candidate>)
    ensures
        candidate_views(r@) == ranked(candidate_views(cands@), n as nat, n as nat),
{
    let ghost cv = candidate_views(cands@);
    let mut out: Vec<Candidate> = Vec::new();
    let mut k: usize = 0;
    while k < n
        invariant
            k <= n,
            cv == candidate_views(cands@),
            candidate_views(out@) == ranked(cv, n as nat, k as nat),
        decreases n - k,
    {
        let level = n - k;
        let ghost base = candidate_views(out@);
        let mut j: usize = 0;
        while j < cands.len()
            invariant
                j <= cands.len(),
                k < n,
                level == n - k,
                cv == candidate_views(cands@),
                candidate_views(out@) == base + at_level(cv.take(j as int), level as nat),
            decreases cands.len() - j,
        {
            proof {
                assert(cv.take(j + 1).drop_last() =~= cv.take(j as int));
                assert(cv.take(j + 1).last() == cv[j as int]);
            }
            if cands[j].matched == level {
                let ghost before = candidate_views(out@);
                out.push(cands[j]);
                assert(candidate_views(out@) =~= before.push(cv[j as int]));
            }
            j += 1;
        }
        assert(cv.take(cands.len() as int) =~= cv);
        k += 1;
    }
    out
}

} // verus!
