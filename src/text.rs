//! Character-level text handling: case folding, tokenizing, line splitting
//! and substring search, all over sequences of `char`.
use vstd::prelude::*;
use vstd::std_specs::iter::IteratorSpec;

verus! {

broadcast use {vstd::string::next_postcondition, vstd::string::group_string_axioms};

/// The lowercase mapping of one character, as `char::to_lowercase` gives it:
/// one or more characters.
pub uninterp spec fn char_lower(c: char) -> Seq<char>;

/// Case folding of a text, character by character.
pub open spec fn lower(s: Seq<char>) -> Seq<char>
    decreases s.len(),
{
    if s.len() == 0 {
        seq![]
    } else {
        lower(s.drop_last()) + char_lower(s.last())
    }
}

/// For each character of `lower(s)`, the position in `s` of the character
/// it was folded from.
pub open spec fn fold_origin(s: Seq<char>) -> Seq<nat>
    decreases s.len(),
{
    if s.len() == 0 {
        seq![]
    } else {
        fold_origin(s.drop_last()) + Seq::new(
            char_lower(s.last()).len(),
            |j: int| (s.len() - 1) as nat,
        )
    }
}

/// Each word lowercased.
pub open spec fn lower_each(rs: Seq<Seq<char>>) -> Seq<Seq<char>> {
    rs.map_values(|r: Seq<char>| lower(r))
}

/// Characters that make up an indexed word: ASCII letters, digits and `_`.
pub open spec fn is_word_char(c: char) -> bool {
    ('a' <= c && c <= 'z') || ('A' <= c && c <= 'Z') || ('0' <= c && c <= '9') || c == '_'
}

/// Unicode white space, as used to separate query terms.
pub open spec fn is_space(c: char) -> bool {
    c == ' ' || c == '\t' || c == '\n' || c == '\r' || c == '\x0b' || c == '\x0c'
        || c == '\u{85}' || c == '\u{a0}' || c == '\u{1680}' || ('\u{2000}' <= c && c
        <= '\u{200a}') || c == '\u{2028}' || c == '\u{2029}' || c == '\u{202f}' || c
        == '\u{205f}' || c == '\u{3000}'
}

/// Whether `c` belongs to a run: a word character when `words`, else any
/// non-space character.
pub open spec fn in_run(c: char, words: bool) -> bool {
    if words {
        is_word_char(c)
    } else {
        !is_space(c)
    }
}

/// Scanning state after `s`: the runs completed so far and the run in progress.
pub open spec fn run_scan(s: Seq<char>, words: bool) -> (Seq<Seq<char>>, Seq<char>)
    decreases s.len(),
{
    if s.len() == 0 {
        (seq![], seq![])
    } else {
        let (done, cur) = run_scan(s.drop_last(), words);
        if in_run(s.last(), words) {
            (done, cur.push(s.last()))
        } else if cur.len() > 0 {
            (done.push(cur), seq![])
        } else {
            (done, cur)
        }
    }
}

/// The maximal non-empty runs of `s`, in order.
pub open spec fn runs(s: Seq<char>, words: bool) -> Seq<Seq<char>> {
    let (done, cur) = run_scan(s, words);
    if cur.len() > 0 {
        done.push(cur)
    } else {
        done
    }
}

/// The number of bytes that encode `c` in UTF-8.
pub open spec fn char_utf8_len(c: char) -> nat {
    if (c as u32) < 0x80 {
        1
    } else if (c as u32) < 0x800 {
        2
    } else if (c as u32) < 0x10000 {
        3
    } else {
        4
    }
}

/// The number of bytes that encode `s` in UTF-8.
pub open spec fn utf8_len(s: Seq<char>) -> nat
    decreases s.len(),
{
    if s.len() == 0 {
        0
    } else {
        utf8_len(s.drop_last()) + char_utf8_len(s.last())
    }
}

proof fn lemma_utf8_len_prefix(s: Seq<char>, i: int)
    requires
        0 <= i <= s.len(),
    ensures
        utf8_len(s.take(i)) <= utf8_len(s),
    decreases s.len() - i,
{
    if i == s.len() {
        assert(s.take(i) =~= s);
    } else {
        lemma_utf8_len_prefix(s, i + 1);
        assert(s.take(i + 1).drop_last() =~= s.take(i));
    }
}

/// Whether `s` takes more than two bytes in UTF-8.
pub fn longer_than_two_bytes(s: &Vec<char>) -> (r: bool)
    ensures
        r == (utf8_len(s@) > 2),
{
    let mut n: usize = 0;
    let mut i: usize = 0;
    while i < s.len()
        invariant
            i <= s.len(),
            n <= 2,
            n == utf8_len(s@.take(i as int)),
        decreases s.len() - i,
    {
        let c = s[i];
        let w: usize = if (c as u32) < 0x80 {
            1
        } else if (c as u32) < 0x800 {
            2
        } else if (c as u32) < 0x10000 {
            3
        } else {
            4
        };
        proof {
            assert(s@.take(i + 1).drop_last() =~= s@.take(i as int));
            assert(s@.take(i + 1).last() == c);
        }
        n = n + w;
        i += 1;
        if n > 2 {
            proof {
                lemma_utf8_len_prefix(s@, i as int);
            }
            return true;
        }
    }
    assert(s@.take(s.len() as int) =~= s@);
    false
}

/// The runs that take more than two bytes in UTF-8, in order.
pub open spec fn keep_long(rs: Seq<Seq<char>>) -> Seq<Seq<char>>
    decreases rs.len(),
{
    if rs.len() == 0 {
        seq![]
    } else if utf8_len(rs.last()) > 2 {
        keep_long(rs.drop_last()).push(rs.last())
    } else {
        keep_long(rs.drop_last())
    }
}

/// First occurrences only, in order.
pub open spec fn dedup(rs: Seq<Seq<char>>) -> Seq<Seq<char>>
    decreases rs.len(),
{
    if rs.len() == 0 {
        seq![]
    } else if dedup(rs.drop_last()).contains(rs.last()) {
        dedup(rs.drop_last())
    } else {
        dedup(rs.drop_last()).push(rs.last())
    }
}

/// The distinct index terms of a line: its words of more than two bytes,
/// lowercased, each once, in order of first appearance.
pub open spec fn line_terms(line: Seq<char>) -> Seq<Seq<char>> {
    dedup(lower_each(keep_long(runs(line, true))))
}

/// The terms of a query: its white-space separated pieces of more than two
/// bytes in UTF-8, lowercased, repeats kept.
pub open spec fn query_terms(q: Seq<char>) -> Seq<Seq<char>> {
    lower_each(keep_long(runs(q, false)))
}

/// Drops one carriage return that ends a line.
pub open spec fn strip_cr(l: Seq<char>) -> Seq<char> {
    if l.len() > 0 && l.last() == '\r' {
        l.drop_last()
    } else {
        l
    }
}

/// Scanning state after `s`: the lines ended by a newline, and the current one.
pub open spec fn line_scan(s: Seq<char>) -> (Seq<Seq<char>>, Seq<char>)
    decreases s.len(),
{
    if s.len() == 0 {
        (seq![], seq![])
    } else {
        let (done, cur) = line_scan(s.drop_last());
        if s.last() == '\n' {
            (done.push(strip_cr(cur)), seq![])
        } else {
            (done, cur.push(s.last()))
        }
    }
}

/// The lines of a text: split at `\n` or `\r\n`; a final line ending is optional.
pub open spec fn lines(s: Seq<char>) -> Seq<Seq<char>> {
    let (done, cur) = line_scan(s);
    if cur.len() > 0 {
        done.push(cur)
    } else {
        done
    }
}

pub open spec fn occurs_at(s: Seq<char>, q: Seq<char>, i: int) -> bool {
    0 <= i && i + q.len() <= s.len() && s.subrange(i, i + q.len()) == q
}

/// The first position at or after `i` where `q` occurs in `s`.
pub open spec fn first_from(s: Seq<char>, q: Seq<char>, i: int) -> Option<int>
    decreases s.len() + 1 - i,
{
    if i < 0 || i + q.len() > s.len() {
        None
    } else if occurs_at(s, q, i) {
        Some(i)
    } else {
        first_from(s, q, i + 1)
    }
}

pub open spec fn first_occurrence(s: Seq<char>, q: Seq<char>) -> Option<int> {
    first_from(s, q, 0)
}

pub open spec fn contains(s: Seq<char>, q: Seq<char>) -> bool {
    first_occurrence(s, q) is Some
}

/// How many of `terms` (repeats counted) occur in `line`.
pub open spec fn matched_count(terms: Seq<Seq<char>>, line: Seq<char>) -> nat
    decreases terms.len(),
{
    if terms.len() == 0 {
        0
    } else {
        matched_count(terms.drop_last(), line) + if contains(line, terms.last()) {
            1nat
        } else {
            0nat
        }
    }
}

pub open spec fn views(v: Seq<Vec<char>>) -> Seq<Seq<char>> {
    v.map_values(|x: Vec<char>| x@)
}

/// The first occurrence is the least position where `q` occurs.
pub proof fn lemma_first_occurrence(s: Seq<char>, q: Seq<char>, i: int)
    requires
        0 <= i,
    ensures
        match first_from(s, q, i) {
            Some(k) => i <= k && occurs_at(s, q, k) && forall|j: int|
                i <= j < k ==> !occurs_at(s, q, j),
            None => forall|j: int| i <= j ==> !occurs_at(s, q, j),
        },
    decreases s.len() + 1 - i,
{
    if i + q.len() > s.len() {
    } else if occurs_at(s, q, i) {
    } else {
        lemma_first_occurrence(s, q, i + 1);
    }
}

pub proof fn lemma_matched_count_bound(terms: Seq<Seq<char>>, line: Seq<char>)
    ensures
        matched_count(terms, line) <= terms.len(),
    decreases terms.len(),
{
    if terms.len() > 0 {
        lemma_matched_count_bound(terms.drop_last(), line);
    }
}

/// Relies on `String::from_iter`: collecting chars yields them in order.
#[verifier::external_body]
pub(crate) fn string_of(cs: &Vec<char>) -> (r: String)
    ensures
        r@ == cs@,
{
    String::from_iter(cs.iter())
}

pub fn chars_of(s: &str) -> (r: Vec<char>)
    ensures
        r@ == s@,
{
    let mut v: Vec<char> = Vec::new();
    let mut it = s.chars();
    loop
        invariant
            v@ + it.remaining() == s@,
            it.decrease() is Some,
            it.obeys_prophetic_iter_laws(),
        ensures
            v@ == s@,
        decreases it.decrease()->0,
    {
        match it.next() {
            Some(c) => {
                v.push(c);
            },
            None => {
                assert(v@ =~= v@ + it.remaining());
                break ;
            },
        }
    }
    v
}

/// Relies on `char::to_lowercase`: the lowercase mapping of `c`.
#[verifier::external_body]
fn fold_char(c: char) -> (r: Vec<char>)
    ensures
        r@ == char_lower(c),
{
    c.to_lowercase().collect()
}

pub proof fn lemma_fold_origin(s: Seq<char>)
    ensures
        fold_origin(s).len() == lower(s).len(),
        forall|j: int| 0 <= j < fold_origin(s).len() ==> #[trigger] fold_origin(s)[j] < s.len(),
    decreases s.len(),
{
    if s.len() > 0 {
        lemma_fold_origin(s.drop_last());
    }
}

/// Folds the case of `s`, and gives for each folded character the position of
/// the character of `s` it comes from.
pub fn fold_case(s: &Vec<char>) -> (r: (Vec<char>, Vec<usize>))
    ensures
        r.0@ == lower(s@),
        r.1@.len() == r.0@.len(),
        forall|j: int| 0 <= j < r.1@.len() ==> r.1@[j] as nat == #[trigger] fold_origin(s@)[j],
        forall|j: int| 0 <= j < r.1@.len() ==> #[trigger] r.1@[j] < s.len(),
{
    let mut out: Vec<char> = Vec::new();
    let mut org: Vec<usize> = Vec::new();
    let mut i: usize = 0;
    while i < s.len()
        invariant
            i <= s.len(),
            out@ == lower(s@.take(i as int)),
            org@.len() == out@.len(),
            forall|j: int| 0 <= j < org@.len() ==> org@[j] as nat == #[trigger] fold_origin(s@.take(i as int))[j],
            forall|j: int| 0 <= j < org@.len() ==> #[trigger] org@[j] < i,
        decreases s.len() - i,
    {
        let f = fold_char(s[i]);
        let ghost out0 = out@;
        let ghost org0 = org@;
        let ghost fo0 = fold_origin(s@.take(i as int));
        proof {
            lemma_fold_origin(s@.take(i as int));
        }
        let mut k: usize = 0;
        while k < f.len()
            invariant
                k <= f.len(),
                i < s.len(),
                out@ == out0 + f@.take(k as int),
                org@.len() == out@.len(),
                org0.len() == out0.len(),
                fo0.len() == org0.len(),
                forall|j: int| 0 <= j < org0.len() ==> org@[j] == org0[j],
                forall|j: int| org0.len() <= j < org@.len() ==> org@[j] == i,
                forall|j: int| 0 <= j < org0.len() ==> org0[j] as nat == #[trigger] fo0[j],
                forall|j: int| 0 <= j < org0.len() ==> #[trigger] org0[j] < i,
            decreases f.len() - k,
        {
            out.push(f[k]);
            org.push(i);
            k += 1;
            assert(out@ =~= out0 + f@.take(k as int));
        }
        proof {
            assert(f@.take(f.len() as int) =~= f@);
            assert(s@.take(i + 1).drop_last() =~= s@.take(i as int));
            let fo1 = fold_origin(s@.take(i + 1));
            assert(fo1 == fo0 + Seq::new(char_lower(s@[i as int]).len(), |j: int| i as nat));
            assert forall|j: int| 0 <= j < org@.len() implies org@[j] as nat == #[trigger] fold_origin(
                s@.take(i + 1),
            )[j] by {
                if j < org0.len() {
                    assert(org@[j] == org0[j]);
                    assert(fo1[j] == fo0[j]);
                } else {
                    assert(fo1[j] == i as nat);
                }
            }
            assert forall|j: int| 0 <= j < org@.len() implies #[trigger] org@[j] < i + 1 by {
                if j < org0.len() {
                    assert(org@[j] == org0[j]);
                }
            }
        }
        i += 1;
    }
    assert(s@.take(s.len() as int) =~= s@);
    (out, org)
}

/// Folds the case of `s`.
pub fn lowercase(s: &Vec<char>) -> (r: Vec<char>)
    ensures
        r@ == lower(s@),
{
    fold_case(s).0
}

/// Folds the case of each word.
pub fn lowercase_each(rs: Vec<Vec<char>>) -> (r: Vec<Vec<char>>)
    ensures
        views(r@) == lower_each(views(rs@)),
{
    let mut out: Vec<Vec<char>> = Vec::new();
    let mut i: usize = 0;
    while i < rs.len()
        invariant
            i <= rs.len(),
            views(out@) == lower_each(views(rs@.take(i as int))),
        decreases rs.len() - i,
    {
        let ghost before = views(out@);
        out.push(lowercase(&rs[i]));
        assert(views(out@) =~= before.push(lower(rs@[i as int]@)));
        i += 1;
        assert(lower_each(views(rs@.take(i as int))) =~= lower_each(views(rs@.take(i - 1))).push(
            lower(rs@[i - 1]@),
        ));
    }
    assert(rs@.take(rs.len() as int) =~= rs@);
    out
}

pub fn is_space_char(c: char) -> (r: bool)
    ensures
        r == is_space(c),
{
    c == ' ' || c == '\t' || c == '\n' || c == '\r' || c == '\x0b' || c == '\x0c' || c
        == '\u{85}' || c == '\u{a0}' || c == '\u{1680}' || ('\u{2000}' <= c && c <= '\u{200a}')
        || c == '\u{2028}' || c == '\u{2029}' || c == '\u{202f}' || c == '\u{205f}' || c
        == '\u{3000}'
}

fn in_run_exec(c: char, words: bool) -> (r: bool)
    ensures
        r == in_run(c, words),
{
    if words {
        ('a' <= c && c <= 'z') || ('A' <= c && c <= 'Z') || ('0' <= c && c <= '9') || c == '_'
    } else {
        !is_space_char(c)
    }
}

/// Splits `s` into its maximal runs: of word characters when `words`, else of
/// non-space characters.
pub fn split_runs(s: &Vec<char>, words: bool) -> (r: Vec<Vec<char>>)
    ensures
        views(r@) == runs(s@, words),
{
    let mut done: Vec<Vec<char>> = Vec::new();
    let mut cur: Vec<char> = Vec::new();
    let mut i: usize = 0;
    while i < s.len()
        invariant
            i <= s.len(),
            (views(done@), cur@) == run_scan(s@.take(i as int), words),
        decreases s.len() - i,
    {
        let c = s[i];
        proof {
            assert(s@.take(i + 1).drop_last() =~= s@.take(i as int));
        }
        if in_run_exec(c, words) {
            cur.push(c);
        } else if cur.len() > 0 {
            let ghost old_done = done@;
            done.push(cur);
            cur = Vec::new();
            assert(views(done@) =~= views(old_done).push(views(done@).last()));
        }
        i += 1;
        assert(cur@ == run_scan(s@.take(i as int), words).1);
    }
    assert(s@.take(s.len() as int) =~= s@);
    if cur.len() > 0 {
        let ghost old_done = done@;
        done.push(cur);
        assert(views(done@) =~= views(old_done).push(views(done@).last()));
    }
    done
}

/// A copy of `s[from..to]`.
pub fn slice_chars(s: &Vec<char>, from: usize, to: usize) -> (r: Vec<char>)
    requires
        from <= to <= s.len(),
    ensures
        r@ == s@.subrange(from as int, to as int),
{
    let mut out: Vec<char> = Vec::new();
    let mut i: usize = from;
    while i < to
        invariant
            from <= i <= to <= s.len(),
            out@ == s@.subrange(from as int, i as int),
        decreases to - i,
    {
        out.push(s[i]);
        i += 1;
        assert(out@ =~= s@.subrange(from as int, i as int));
    }
    out
}

/// Keeps the runs that take more than two bytes in UTF-8.
pub fn long_only(rs: Vec<Vec<char>>) -> (r: Vec<Vec<char>>)
    ensures
        views(r@) == keep_long(views(rs@)),
{
    let mut out: Vec<Vec<char>> = Vec::new();
    let mut i: usize = 0;
    while i < rs.len()
        invariant
            i <= rs.len(),
            views(out@) == keep_long(views(rs@.take(i as int))),
        decreases rs.len() - i,
    {
        proof {
            assert(views(rs@.take(i + 1)).drop_last() =~= views(rs@.take(i as int)));
            assert(views(rs@.take(i + 1)).last() == rs@[i as int]@);
        }
        if longer_than_two_bytes(&rs[i]) {
            let ghost old_out = out@;
            out.push(rs[i].clone());
            assert(views(out@) =~= views(old_out).push(rs@[i as int]@));
        }
        i += 1;
    }
    assert(rs@.take(rs.len() as int) =~= rs@);
    out
}

pub fn same_chars(a: &Vec<char>, b: &Vec<char>) -> (r: bool)
    ensures
        r == (a@ == b@),
{
    if a.len() != b.len() {
        return false;
    }
    let mut i: usize = 0;
    while i < a.len()
        invariant
            i <= a.len() == b.len(),
            forall|k: int| 0 <= k < i ==> a@[k] == b@[k],
        decreases a.len() - i,
    {
        if a[i] != b[i] {
            return false;
        }
        i += 1;
    }
    assert(a@ =~= b@);
    true
}

fn contains_run(rs: &Vec<Vec<char>>, x: &Vec<char>) -> (r: bool)
    ensures
        r == views(rs@).contains(x@),
{
    let mut i: usize = 0;
    while i < rs.len()
        invariant
            i <= rs.len(),
            forall|k: int| 0 <= k < i ==> rs@[k]@ != x@,
        decreases rs.len() - i,
    {
        if same_chars(&rs[i], x) {
            assert(views(rs@)[i as int] == x@);
            return true;
        }
        i += 1;
    }
    assert forall|k: int| 0 <= k < views(rs@).len() implies views(rs@)[k] != x@ by {
        assert(views(rs@)[k] == rs@[k]@);
    }
    false
}

/// Keeps the first occurrence of each run.
pub fn dedup_runs(rs: Vec<Vec<char>>) -> (r: Vec<Vec<char>>)
    ensures
        views(r@) == dedup(views(rs@)),
{
    let mut out: Vec<Vec<char>> = Vec::new();
    let mut i: usize = 0;
    while i < rs.len()
        invariant
            i <= rs.len(),
            views(out@) == dedup(views(rs@.take(i as int))),
        decreases rs.len() - i,
    {
        proof {
            assert(views(rs@.take(i + 1)).drop_last() =~= views(rs@.take(i as int)));
            assert(views(rs@.take(i + 1)).last() == rs@[i as int]@);
        }
        if !contains_run(&out, &rs[i]) {
            let ghost old_out = out@;
            out.push(rs[i].clone());
            assert(views(out@) =~= views(old_out).push(rs@[i as int]@));
        }
        i += 1;
    }
    assert(rs@.take(rs.len() as int) =~= rs@);
    out
}

/// The distinct terms of one line, lowercased, in order of first appearance.
pub fn extract_terms(line: &Vec<char>) -> (r: Vec<Vec<char>>)
    ensures
        views(r@) == line_terms(line@),
{
    dedup_runs(lowercase_each(long_only(split_runs(line, true))))
}

/// The terms of a query, lowercased, repeats kept.
pub fn split_query(q: &str) -> (r: Vec<Vec<char>>)
    ensures
        views(r@) == query_terms(q@),
{
    lowercase_each(long_only(split_runs(&chars_of(q), false)))
}

/// Splits a text into lines.
pub fn split_lines(s: &Vec<char>) -> (r: Vec<Vec<char>>)
    ensures
        views(r@) == lines(s@),
{
    let mut done: Vec<Vec<char>> = Vec::new();
    let mut cur: Vec<char> = Vec::new();
    let mut i: usize = 0;
    while i < s.len()
        invariant
            i <= s.len(),
            (views(done@), cur@) == line_scan(s@.take(i as int)),
        decreases s.len() - i,
    {
        let c = s[i];
        proof {
            assert(s@.take(i + 1).drop_last() =~= s@.take(i as int));
        }
        if c == '\n' {
            if cur.len() > 0 && cur[cur.len() - 1] == '\r' {
                cur.pop();
            }
            let ghost old_done = done@;
            done.push(cur);
            cur = Vec::new();
            assert(views(done@) =~= views(old_done).push(views(done@).last()));
        } else {
            cur.push(c);
        }
        i += 1;
        assert(cur@ == line_scan(s@.take(i as int)).1);
    }
    assert(s@.take(s.len() as int) =~= s@);
    if cur.len() > 0 {
        let ghost old_done = done@;
        done.push(cur);
        assert(views(done@) =~= views(old_done).push(views(done@).last()));
    }
    done
}

fn occurs_at_exec(s: &Vec<char>, q: &Vec<char>, i: usize) -> (r: bool)
    requires
        i + q.len() <= s.len(),
    ensures
        r == occurs_at(s@, q@, i as int),
{
    let mut k: usize = 0;
    while k < q.len()
        invariant
            k <= q.len(),
            i + q.len() <= s.len(),
            forall|j: int| 0 <= j < k ==> s@[i + j] == q@[j],
        decreases q.len() - k,
    {
        if s[i + k] != q[k] {
            assert(s@.subrange(i as int, i + q.len())[k as int] != q@[k as int]);
            return false;
        }
        k += 1;
    }
    assert(s@.subrange(i as int, i + q.len()) =~= q@);
    true
}

/// The first position where `q` occurs in `s`.
pub fn find(s: &Vec<char>, q: &Vec<char>) -> (r: Option<usize>)
    ensures
        r matches Some(i) ==> first_occurrence(s@, q@) == Some(i as int),
        r is None ==> first_occurrence(s@, q@) is None,
{
    if q.len() > s.len() {
        return None;
    }
    let mut i: usize = 0;
    let last = s.len() - q.len();
    while i <= last
        invariant
            last == s.len() - q.len(),
            i <= last + 1,
            first_occurrence(s@, q@) == first_from(s@, q@, i as int),
        decreases last + 1 - i,
    {
        if occurs_at_exec(s, q, i) {
            return Some(i);
        }
        if i == last {
            assert(first_from(s@, q@, i + 1) is None);
            return None;
        }
        i += 1;
    }
    None
}

/// How many of `terms` occur in `line`.
pub fn count_matches(terms: &Vec<Vec<char>>, line: &Vec<char>) -> (r: usize)
    ensures
        r == matched_count(views(terms@), line@),
        r <= terms.len(),
{
    let mut n: usize = 0;
    let mut i: usize = 0;
    while i < terms.len()
        invariant
            i <= terms.len(),
            n <= i,
            n == matched_count(views(terms@.take(i as int)), line@),
        decreases terms.len() - i,
    {
        proof {
            assert(views(terms@.take(i + 1)).drop_last() =~= views(terms@.take(i as int)));
            assert(views(terms@.take(i + 1)).last() == terms@[i as int]@);
        }
        if find(line, &terms[i]).is_some() {
            n += 1;
        }
        i += 1;
    }
    assert(terms@.take(terms.len() as int) =~= terms@);
    n
}

} // verus!
