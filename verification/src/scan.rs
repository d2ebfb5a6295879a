//! Byte-level scanning: line boundaries and whitespace-separated tokens.
//!
//! The spec functions in this module are the ground truth that every later
//! phase of the pipeline is stated against: where a line ends, where the
//! next line starts, and how a line splits into tokens.

use vstd::prelude::*;

verus! {

/// A line terminator.
pub open spec fn is_newline(b: u8) -> bool {
    b == 10
}

/// Intra-line whitespace: space, tab, carriage return.
pub open spec fn is_space(b: u8) -> bool {
    b == 32 || b == 9 || b == 13
}

/// Index of the first line terminator at or after `i`, or `doc.len()` if
/// the last line is unterminated.
pub open spec fn line_end(doc: Seq<u8>, i: int) -> int
    decreases doc.len() - i,
{
    if i < doc.len() && !is_newline(doc[i]) {
        line_end(doc, i + 1)
    } else {
        i
    }
}

/// Start of the line following the one that begins at or covers `i`.
pub open spec fn next_line_start(doc: Seq<u8>, i: int) -> int {
    if line_end(doc, i) < doc.len() {
        line_end(doc, i) + 1
    } else {
        doc.len() as int
    }
}

/// `line_end` stays within the document and is the first terminator.
pub proof fn lemma_line_end(doc: Seq<u8>, i: int)
    requires
        0 <= i <= doc.len(),
    ensures
        i <= line_end(doc, i) <= doc.len(),
        line_end(doc, i) < doc.len() ==> is_newline(doc[line_end(doc, i)]),
        forall|j: int| i <= j < line_end(doc, i) ==> !is_newline(doc[j]),
    decreases doc.len() - i,
{
    if i < doc.len() && !is_newline(doc[i]) {
        lemma_line_end(doc, i + 1);
    }
}

/// The first terminator at or after a later index cannot come earlier.
pub proof fn lemma_line_end_monotone(doc: Seq<u8>, i: int, j: int)
    requires
        0 <= i <= j <= doc.len(),
    ensures
        line_end(doc, i) <= line_end(doc, j),
{
    lemma_line_end(doc, i);
    lemma_line_end(doc, j);
    if line_end(doc, j) < line_end(doc, i) {
        assert(is_newline(doc[line_end(doc, j)]));
        assert(!is_newline(doc[line_end(doc, j)]));
    }
}

/// First terminator at or after `from` (or `doc.len()`), executable form.
pub fn find_line_end(doc: &[u8], from: usize) -> (r: usize)
    requires
        from <= doc@.len(),
    ensures
        r == line_end(doc@, from as int),
{
    let n = doc.len();
    let mut j = from;
    while j < n && doc[j] != 10
        invariant
            from <= j <= n,
            n == doc@.len(),
            line_end(doc@, from as int) == line_end(doc@, j as int),
        decreases n - j,
    {
        j = j + 1;
    }
    j
}

/// Index of the first non-whitespace byte in `[i, e)`, or `e`.
pub open spec fn skip_spaces(doc: Seq<u8>, i: int, e: int) -> int
    decreases e - i,
{
    if i < e && is_space(doc[i]) {
        skip_spaces(doc, i + 1, e)
    } else {
        i
    }
}

/// End of the token that starts at `i`: the first whitespace at or after
/// `i`, capped at `e`.
pub open spec fn token_end(doc: Seq<u8>, i: int, e: int) -> int
    decreases e - i,
{
    if i < e && !is_space(doc[i]) {
        token_end(doc, i + 1, e)
    } else {
        i
    }
}

pub proof fn lemma_skip_spaces(doc: Seq<u8>, i: int, e: int)
    requires
        i <= e,
    ensures
        i <= skip_spaces(doc, i, e) <= e,
        skip_spaces(doc, i, e) < e ==> !is_space(doc[skip_spaces(doc, i, e)]),
    decreases e - i,
{
    if i < e && is_space(doc[i]) {
        lemma_skip_spaces(doc, i + 1, e);
    }
}

pub proof fn lemma_token_end(doc: Seq<u8>, i: int, e: int)
    requires
        i <= e,
    ensures
        i <= token_end(doc, i, e) <= e,
    decreases e - i,
{
    if i < e && !is_space(doc[i]) {
        lemma_token_end(doc, i + 1, e);
    }
}

/// The whitespace-separated tokens of `doc[i..e)`, as byte spans in
/// document order.
pub open spec fn tokens_from(doc: Seq<u8>, i: int, e: int) -> Seq<(int, int)>
    decreases e - i,
{
    if i < e {
        let a = skip_spaces(doc, i, e);
        if a >= e {
            Seq::empty()
        } else {
            let b = token_end(doc, a, e);
            proof {
                lemma_skip_spaces(doc, i, e);
                lemma_token_end(doc, a + 1, e);
            }
            seq![(a, b)] + tokens_from(doc, b, e)
        }
    } else {
        Seq::empty()
    }
}

/// Every token lies inside `[i, e)` and is non-empty.
pub proof fn lemma_tokens_from_in(doc: Seq<u8>, i: int, e: int)
    requires
        i <= e,
    ensures
        forall|k: int|
            0 <= k < tokens_from(doc, i, e).len() ==> i <= (#[trigger] tokens_from(doc, i, e)[k]).0
                < tokens_from(doc, i, e)[k].1 <= e,
    decreases e - i,
{
    if i < e {
        let a = skip_spaces(doc, i, e);
        if a < e {
            let b = token_end(doc, a, e);
            lemma_skip_spaces(doc, i, e);
            assert(!is_space(doc[a]));
            assert(b == token_end(doc, a + 1, e));
            lemma_token_end(doc, a + 1, e);
            lemma_tokens_from_in(doc, b, e);
            let ts = tokens_from(doc, i, e);
            let rest = tokens_from(doc, b, e);
            assert(ts == seq![(a, b)] + rest);
            assert forall|k: int|
                0 <= k < ts.len() implies i <= (#[trigger] ts[k]).0 < ts[k].1 <= e by {
                if k == 0 {
                    assert(ts[0] == (a, b));
                } else {
                    assert(ts[k] == rest[k - 1]);
                }
            }
        }
    }
}

/// Collects the whitespace-separated tokens of `doc[from..e)`.
pub fn collect_tokens(doc: &[u8], from: usize, e: usize) -> (r: Vec<(usize, usize)>)
    requires
        from <= e <= doc@.len(),
    ensures
        crate::chunk::spans_view(r@) == tokens_from(doc@, from as int, e as int),
{
    let mut r: Vec<(usize, usize)> = Vec::new();
    let mut cur = from;
    loop
        invariant
            from <= cur <= e <= doc@.len(),
            crate::chunk::spans_view(r@) + tokens_from(doc@, cur as int, e as int) == tokens_from(
                doc@,
                from as int,
                e as int,
            ),
        decreases e - cur,
    {
        let a = find_token_start(doc, cur, e);
        if a >= e {
            proof {
                assert(tokens_from(doc@, cur as int, e as int) =~= Seq::<(int, int)>::empty());
                assert(crate::chunk::spans_view(r@) + tokens_from(doc@, cur as int, e as int)
                    =~= crate::chunk::spans_view(r@));
            }
            return r;
        }
        let b = find_token_end(doc, a, e);
        proof {
            lemma_skip_spaces(doc@, cur as int, e as int);
            assert(!is_space(doc@[a as int]));
            lemma_token_end(doc@, a as int + 1, e as int);
            assert(b as int == token_end(doc@, a as int + 1, e as int));
            assert(tokens_from(doc@, cur as int, e as int) == seq![(a as int, b as int)]
                + tokens_from(doc@, b as int, e as int));
        }
        let ghost before = r@;
        r.push((a, b));
        proof {
            assert(crate::chunk::spans_view(r@) =~= crate::chunk::spans_view(before).push(
                (a as int, b as int),
            ));
            assert(crate::chunk::spans_view(before) + (seq![(a as int, b as int)] + tokens_from(
                doc@,
                b as int,
                e as int,
            )) =~= crate::chunk::spans_view(r@) + tokens_from(doc@, b as int, e as int));
        }
        cur = b;
    }
}

/// First non-whitespace index in `[from, e)`, executable form.
pub fn find_token_start(doc: &[u8], from: usize, e: usize) -> (r: usize)
    requires
        from <= e <= doc@.len(),
    ensures
        r == skip_spaces(doc@, from as int, e as int),
        from <= r <= e,
{
    let mut j = from;
    while j < e && (doc[j] == 32 || doc[j] == 9 || doc[j] == 13)
        invariant
            from <= j <= e,
            e <= doc@.len(),
            skip_spaces(doc@, from as int, e as int) == skip_spaces(doc@, j as int, e as int),
        decreases e - j,
    {
        j = j + 1;
    }
    proof {
        lemma_skip_spaces(doc@, j as int, e as int);
    }
    j
}

/// End of the token starting at `from`, executable form.
pub fn find_token_end(doc: &[u8], from: usize, e: usize) -> (r: usize)
    requires
        from <= e <= doc@.len(),
    ensures
        r == token_end(doc@, from as int, e as int),
        from <= r <= e,
{
    let mut j = from;
    while j < e && !(doc[j] == 32 || doc[j] == 9 || doc[j] == 13)
        invariant
            from <= j <= e,
            e <= doc@.len(),
            token_end(doc@, from as int, e as int) == token_end(doc@, j as int, e as int),
        decreases e - j,
    {
        j = j + 1;
    }
    proof {
        lemma_token_end(doc@, j as int, e as int);
    }
    j
}

} // verus!
