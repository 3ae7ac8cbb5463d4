//! Bounded excerpts of a file: a character window around a match, and a
//! window of lines around a matching line.
use vstd::prelude::*;
use crate::text::{
    fold_case, fold_origin, lemma_first_occurrence, lemma_fold_origin, first_occurrence, lower, find,
    views,
};

verus! {

/// The marker appended when an excerpt stops before the end of the text.
pub open spec fn more_marker() -> Seq<char> {
    seq!['\n', '.', '.', '.']
}

/// Where the first case-insensitive match of the lowercased query `q` starts
/// in `c`: the character whose folding holds the first matched character.
pub open spec fn match_origin(c: Seq<char>, q: Seq<char>) -> Option<int> {
    match first_occurrence(lower(c), q) {
        Some(idx) => Some(
            if idx < lower(c).len() {
                fold_origin(c)[idx] as int
            } else {
                c.len() as int
            },
        ),
        None => None,
    }
}

/// An excerpt of `c` of up to `max_len` characters: from a quarter of
/// `max_len` before position `found`, or from the start when nothing was found.
pub open spec fn excerpt_at(c: Seq<char>, found: Option<int>, max_len: nat) -> Seq<char> {
    match found {
        Some(idx) => {
            let start = if idx >= max_len / 4 {
                idx - max_len / 4
            } else {
                0
            };
            let end = if start + max_len <= c.len() {
                start + max_len
            } else {
                c.len() as int
            };
            c.subrange(start, end) + if end < c.len() {
                more_marker()
            } else {
                seq![]
            }
        },
        None => if c.len() <= max_len {
            c
        } else {
            c.take(max_len as int) + more_marker()
        },
    }
}

/// The character excerpt of `c` around the first match of the lowercased query `q`.
pub open spec fn snippet_text(c: Seq<char>, q: Seq<char>, max_len: nat) -> Seq<char> {
    excerpt_at(c, match_origin(c, q), max_len)
}

pub open spec fn opt_int(o: Option<usize>) -> Option<int> {
    match o {
        Some(x) => Some(x as int),
        None => None,
    }
}

/// Lines of lookback and of lookahead around a matching line.
pub const CONTEXT_LINES: usize = 6;

pub open spec fn window_start(n: nat) -> nat {
    if n >= CONTEXT_LINES {
        (n - CONTEXT_LINES) as nat
    } else {
        0
    }
}

pub open spec fn window_end(n: nat, len: nat) -> nat {
    if n + CONTEXT_LINES + 1 <= len {
        (n + CONTEXT_LINES + 1) as nat
    } else {
        len
    }
}

/// Lines joined by single newlines.
pub open spec fn join_lines(ls: Seq<Seq<char>>) -> Seq<char>
    decreases ls.len(),
{
    if ls.len() == 0 {
        seq![]
    } else if ls.len() == 1 {
        ls[0]
    } else {
        join_lines(ls.drop_last()) + seq!['\n'] + ls.last()
    }
}

/// The lines around line `n`, clamped to the text, joined.
pub open spec fn context_of(ls: Seq<Seq<char>>, n: nat) -> Seq<char> {
    join_lines(ls.subrange(window_start(n) as int, window_end(n, ls.len()) as int))
}

/// The window around a line stays within the text and holds the line.
pub proof fn lemma_window_in_bounds(n: nat, len: nat)
    requires
        n < len,
    ensures
        0 <= window_start(n) <= n < window_end(n, len) <= len,
        window_end(n, len) - window_start(n) <= 2 * CONTEXT_LINES + 1,
{
}

fn push_all(out: &mut Vec<char>, s: &Vec<char>, from: usize, to: usize)
    requires
        from <= to <= s.len(),
    ensures
        final(out)@ == old(out)@ + s@.subrange(from as int, to as int),
{
    let mut i: usize = from;
    while i < to
        invariant
            from <= i <= to <= s.len(),
            out@ == old(out)@ + s@.subrange(from as int, i as int),
        decreases to - i,
    {
        out.push(s[i]);
        i += 1;
        assert(out@ =~= old(out)@ + s@.subrange(from as int, i as int));
    }
}

fn push_marker(out: &mut Vec<char>)
    ensures
        final(out)@ == old(out)@ + more_marker(),
{
    out.push('\n');
    out.push('.');
    out.push('.');
    out.push('.');
    assert(out@ =~= old(out)@ + more_marker());
}

/// The excerpt of `content` around position `found`.
pub fn excerpt(content: &Vec<char>, found: Option<usize>, max_len: usize) -> (r: Vec<char>)
    requires
        found matches Some(p) ==> p <= content.len(),
    ensures
        r@ == excerpt_at(content@, opt_int(found), max_len as nat),
{
    let mut out: Vec<char> = Vec::new();
    match found {
        Some(idx) => {
            let start = if idx >= max_len / 4 {
                idx - max_len / 4
            } else {
                0
            };
            let end = if max_len <= content.len() - start {
                start + max_len
            } else {
                content.len()
            };
            push_all(&mut out, content, start, end);
            if end < content.len() {
                push_marker(&mut out);
            }
        },
        None => {
            if content.len() <= max_len {
                push_all(&mut out, content, 0, content.len());
            } else {
                push_all(&mut out, content, 0, max_len);
                push_marker(&mut out);
            }
        },
    }
    assert(out@ =~= excerpt_at(content@, opt_int(found), max_len as nat));
    out
}

/// The excerpt of `content` around the first case-insensitive match of the
/// lowercased query `q`.
pub fn extract_snippet(content: &Vec<char>, q: &Vec<char>, max_len: usize) -> (r: Vec<char>)
    ensures
        r@ == snippet_text(content@, q@, max_len as nat),
{
    let (lc, origin) = fold_case(content);
    proof {
        lemma_fold_origin(content@);
    }
    let found = match find(&lc, q) {
        Some(idx) => {
            proof {
                lemma_first_occurrence(lc@, q@, 0);
            }
            if idx < lc.len() {
                Some(origin[idx])
            } else {
                Some(content.len())
            }
        },
        None => None,
    };
    assert(opt_int(found) == match_origin(content@, q@));
    excerpt(content, found, max_len)
}

/// The lines around line `n` of `lines`, joined by newlines.
pub fn context_snippet(lines: &Vec<Vec<char>>, n: usize) -> (r: Vec<char>)
    requires
        n < lines.len(),
    ensures
        r@ == context_of(views(lines@), n as nat),
{
    let lo = if n >= CONTEXT_LINES {
        n - CONTEXT_LINES
    } else {
        0
    };
    let hi = if lines.len() - n >= CONTEXT_LINES + 1 {
        n + CONTEXT_LINES + 1
    } else {
        lines.len()
    };
    let ghost ls = views(lines@);
    let mut out: Vec<char> = Vec::new();
    let mut i: usize = lo;
    while i < hi
        invariant
            lo <= i <= hi <= lines.len(),
            lo < hi,
            ls == views(lines@),
            out@ == join_lines(ls.subrange(lo as int, i as int)),
        decreases hi - i,
    {
        proof {
            assert(ls.subrange(lo as int, i + 1).drop_last() =~= ls.subrange(lo as int, i as int));
            assert(ls.subrange(lo as int, i + 1).last() == lines@[i as int]@);
        }
        if i > lo {
            out.push('\n');
        }
        let ghost before = out@;
        push_all(&mut out, &lines[i], 0, lines[i].len());
        proof {
            assert(lines@[i as int]@.subrange(0, lines@[i as int]@.len() as int) =~= lines@[i as int]@);
            if i == lo {
                assert(ls.subrange(lo as int, i + 1) =~= seq![lines@[i as int]@]);
                assert(out@ =~= lines@[i as int]@);
            }
        }
        i += 1;
    }
    out
}

} // verus!
