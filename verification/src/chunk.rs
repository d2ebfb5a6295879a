//! Chunk partitioner: line-aligned byte ranges and per-category line
//! classification.
//!
//! Phase 0 of the pipeline.  The document is cut into `n` byte ranges whose
//! boundaries are corrected forward to the next line start, so no line is
//! split between two workers; each worker then records, per category, the
//! byte spans of the lines in its range.  The classification of a range is
//! specified by [`cat_spans`], and [`lemma_cat_spans_split`] shows that
//! classifying the ranges separately and concatenating the results is the
//! same as classifying the whole document.

use vstd::prelude::*;

use crate::scan::{
    find_line_end, find_token_end, find_token_start, is_newline, line_end, lemma_line_end,
    lemma_line_end_monotone, next_line_start, skip_spaces, token_end,
};

verus! {

/// What the leading token of a line says about it.
#[derive(Clone, Copy, Debug, PartialEq, Eq, Structural)]
pub enum Category {
    /// `v`: a vertex position, three components.
    Position,
    /// `vt`: a texture coordinate, two components.
    Texcoord,
    /// `vn`: a vertex normal, three components.
    Normal,
    /// `f` or `g`: a face or a group marker.
    IndexOrGroup,
    /// A recognized line shape with an unrecognized keyword: kept so a
    /// caller can report it, never fatal.
    Unknown,
    /// Blank lines and comment lines.
    Skip,
}

/// The category of the line `doc[s..e)`, decided by its leading token.
pub open spec fn line_category(doc: Seq<u8>, s: int, e: int) -> Category {
    let a = skip_spaces(doc, s, e);
    if a >= e {
        Category::Skip
    } else if doc[a] == 35 {
        Category::Skip
    } else {
        let b = token_end(doc, a, e);
        if b - a == 1 && doc[a] == 118 {
            Category::Position
        } else if b - a == 2 && doc[a] == 118 && doc[a + 1] == 116 {
            Category::Texcoord
        } else if b - a == 2 && doc[a] == 118 && doc[a + 1] == 110 {
            Category::Normal
        } else if b - a == 1 && (doc[a] == 102 || doc[a] == 103) {
            Category::IndexOrGroup
        } else {
            Category::Unknown
        }
    }
}

/// The spans, in document order, of the lines of `doc[i..e)` whose category
/// is `cat`.  A span excludes its line terminator.
pub open spec fn cat_spans(doc: Seq<u8>, i: int, e: int, cat: Category) -> Seq<(int, int)>
    decreases e - i,
{
    if i < e {
        let le = line_end(doc, i);
        let stop = if le < e {
            le
        } else {
            e
        };
        let nxt = if le + 1 < e {
            le + 1
        } else {
            e
        };
        proof {
            crate::chunk::lemma_line_end_ge(doc, i);
        }
        let rest = cat_spans(doc, nxt, e, cat);
        if line_category(doc, i, stop) == cat {
            seq![(i, stop)] + rest
        } else {
            rest
        }
    } else {
        Seq::empty()
    }
}

/// `line_end` never moves backward, with no condition on its arguments.
pub proof fn lemma_line_end_ge(doc: Seq<u8>, i: int)
    ensures
        line_end(doc, i) >= i,
    decreases doc.len() - i,
{
    if i < doc.len() && !is_newline(doc[i]) {
        lemma_line_end_ge(doc, i + 1);
    }
}

/// Classified spans lie inside their range, are properly ordered, and
/// number at most one per consumed byte.
pub proof fn lemma_cat_spans_wf(doc: Seq<u8>, i: int, e: int, cat: Category)
    requires
        0 <= i <= e <= doc.len(),
    ensures
        cat_spans(doc, i, e, cat).len() <= e - i,
        forall|k: int|
            0 <= k < cat_spans(doc, i, e, cat).len() ==> i <= (#[trigger] cat_spans(
                doc,
                i,
                e,
                cat,
            )[k]).0 <= cat_spans(doc, i, e, cat)[k].1 <= e,
    decreases e - i,
{
    if i < e {
        let le = line_end(doc, i);
        lemma_line_end_ge(doc, i);
        let stop = if le < e {
            le
        } else {
            e
        };
        let nxt = if le + 1 < e {
            le + 1
        } else {
            e
        };
        lemma_cat_spans_wf(doc, nxt, e, cat);
        let ts = cat_spans(doc, i, e, cat);
        let rest = cat_spans(doc, nxt, e, cat);
        if line_category(doc, i, stop) == cat {
            assert(ts == seq![(i, stop)] + rest);
            assert forall|k: int|
                0 <= k < ts.len() implies i <= (#[trigger] ts[k]).0 <= ts[k].1 <= e by {
                if k == 0 {
                    assert(ts[0] == (i, stop));
                } else {
                    assert(ts[k] == rest[k - 1]);
                }
            }
        }
    }
}

/// A position where a range may be cut without splitting a line: the very
/// start or end of the document, or just after a terminator.
pub open spec fn line_aligned(doc: Seq<u8>, p: int) -> bool {
    p == 0 || p == doc.len() || is_newline(doc[p - 1])
}

/// Classifying `[i, e)` in one piece equals classifying `[i, m)` and
/// `[m, e)` separately and concatenating, provided the cut at `m` falls on
/// a line start.
pub proof fn lemma_cat_spans_split(doc: Seq<u8>, i: int, m: int, e: int, cat: Category)
    requires
        0 <= i <= m <= e <= doc.len(),
        m == e || line_aligned(doc, m),
    ensures
        cat_spans(doc, i, e, cat) == cat_spans(doc, i, m, cat) + cat_spans(doc, m, e, cat),
    decreases m - i,
{
    if i >= m {
        assert(cat_spans(doc, i, m, cat) == Seq::<(int, int)>::empty());
        assert(cat_spans(doc, i, e, cat) =~= cat_spans(doc, i, m, cat) + cat_spans(doc, m, e, cat));
    } else if m == e {
        assert(cat_spans(doc, m, e, cat) == Seq::<(int, int)>::empty());
        assert(cat_spans(doc, i, e, cat) =~= cat_spans(doc, i, m, cat) + cat_spans(doc, m, e, cat));
    } else {
        // i < m < e <= doc.len(), so m > 0 and doc[m - 1] is a terminator:
        // the first terminator at or after i is at most m - 1, so the line
        // at i ends strictly before m.
        let le = line_end(doc, i);
        lemma_line_end(doc, i);
        assert(is_newline(doc[m - 1]));
        if le > m - 1 {
            assert(!is_newline(doc[m - 1]));
        }
        assert(le <= m - 1);
        lemma_cat_spans_split(doc, le + 1, m, e, cat);
        assert(cat_spans(doc, i, e, cat) =~= cat_spans(doc, i, m, cat) + cat_spans(
            doc,
            m,
            e,
            cat,
        ));
    }
}

/// The view of a vector of byte spans.
pub open spec fn spans_view(s: Seq<(usize, usize)>) -> Seq<(int, int)> {
    s.map_values(|p: (usize, usize)| (p.0 as int, p.1 as int))
}

/// The classified line spans of one worker's range, one list per category.
#[derive(Clone, Debug)]
pub struct Classified {
    pub position: Vec<(usize, usize)>,
    pub texcoord: Vec<(usize, usize)>,
    pub normal: Vec<(usize, usize)>,
    pub index: Vec<(usize, usize)>,
    pub unknown: Vec<(usize, usize)>,
}

impl Classified {
    pub open spec fn matches(&self, doc: Seq<u8>, s: int, e: int) -> bool {
        &&& spans_view(self.position@) == cat_spans(doc, s, e, Category::Position)
        &&& spans_view(self.texcoord@) == cat_spans(doc, s, e, Category::Texcoord)
        &&& spans_view(self.normal@) == cat_spans(doc, s, e, Category::Normal)
        &&& spans_view(self.index@) == cat_spans(doc, s, e, Category::IndexOrGroup)
        &&& spans_view(self.unknown@) == cat_spans(doc, s, e, Category::Unknown)
    }
}

/// Decides the category of the line `doc[s..e)`.
pub fn classify_line(doc: &[u8], s: usize, e: usize) -> (c: Category)
    requires
        s <= e <= doc@.len(),
    ensures
        c == line_category(doc@, s as int, e as int),
{
    let a = find_token_start(doc, s, e);
    if a >= e {
        Category::Skip
    } else if doc[a] == 35 {
        Category::Skip
    } else {
        let b = find_token_end(doc, a, e);
        let len = b - a;
        if len == 1 && doc[a] == 118 {
            Category::Position
        } else if len == 2 && doc[a] == 118 && doc[a + 1] == 116 {
            Category::Texcoord
        } else if len == 2 && doc[a] == 118 && doc[a + 1] == 110 {
            Category::Normal
        } else if len == 1 && (doc[a] == 102 || doc[a] == 103) {
            Category::IndexOrGroup
        } else {
            Category::Unknown
        }
    }
}

/// Phase-0 worker: classifies every line of `doc[start..end)`.
pub fn classify_range(doc: &[u8], start: usize, end: usize) -> (r: Classified)
    requires
        start <= end <= doc@.len(),
    ensures
        r.matches(doc@, start as int, end as int),
{
    let mut r = Classified {
        position: Vec::new(),
        texcoord: Vec::new(),
        normal: Vec::new(),
        index: Vec::new(),
        unknown: Vec::new(),
    };
    let mut i = start;
    while i < end
        invariant
            start <= i <= end,
            end <= doc@.len(),
            spans_view(r.position@) + cat_spans(doc@, i as int, end as int, Category::Position)
                == cat_spans(doc@, start as int, end as int, Category::Position),
            spans_view(r.texcoord@) + cat_spans(doc@, i as int, end as int, Category::Texcoord)
                == cat_spans(doc@, start as int, end as int, Category::Texcoord),
            spans_view(r.normal@) + cat_spans(doc@, i as int, end as int, Category::Normal)
                == cat_spans(doc@, start as int, end as int, Category::Normal),
            spans_view(r.index@) + cat_spans(doc@, i as int, end as int, Category::IndexOrGroup)
                == cat_spans(doc@, start as int, end as int, Category::IndexOrGroup),
            spans_view(r.unknown@) + cat_spans(doc@, i as int, end as int, Category::Unknown)
                == cat_spans(doc@, start as int, end as int, Category::Unknown),
        decreases end - i,
    {
        let le = find_line_end(doc, i);
        let stop = if le < end {
            le
        } else {
            end
        };
        let nxt = if le < end {
            le + 1
        } else {
            end
        };
        proof {
            lemma_line_end_ge(doc@, i as int);
        }
        let cat = classify_line(doc, i, stop);
        let ghost old_r = r;
        match cat {
            Category::Position => r.position.push((i, stop)),
            Category::Texcoord => r.texcoord.push((i, stop)),
            Category::Normal => r.normal.push((i, stop)),
            Category::IndexOrGroup => r.index.push((i, stop)),
            Category::Unknown => r.unknown.push((i, stop)),
            Category::Skip => (),
        }
        proof {
            lemma_step_spans(doc@, i as int, end as int, old_r, r, cat, (i, stop));
        }
        i = nxt;
    }
    proof {
        assert(spans_view(r.position@) + cat_spans(
            doc@,
            end as int,
            end as int,
            Category::Position,
        ) =~= spans_view(r.position@));
        assert(spans_view(r.texcoord@) + cat_spans(
            doc@,
            end as int,
            end as int,
            Category::Texcoord,
        ) =~= spans_view(r.texcoord@));
        assert(spans_view(r.normal@) + cat_spans(doc@, end as int, end as int, Category::Normal)
            =~= spans_view(r.normal@));
        assert(spans_view(r.index@) + cat_spans(
            doc@,
            end as int,
            end as int,
            Category::IndexOrGroup,
        ) =~= spans_view(r.index@));
        assert(spans_view(r.unknown@) + cat_spans(doc@, end as int, end as int, Category::Unknown)
            =~= spans_view(r.unknown@));
    }
    r
}

/// One classification step: pushing the span of the line at `i` onto the
/// list of its category advances every per-category equation by one line.
proof fn lemma_step_spans(
    doc: Seq<u8>,
    i: int,
    e: int,
    before: Classified,
    after: Classified,
    cat: Category,
    span: (usize, usize),
)
    requires
        i < e,
        line_category(
            doc,
            i,
            if line_end(doc, i) < e {
                line_end(doc, i)
            } else {
                e
            },
        ) == cat,
        span.0 == i,
        span.1 == if line_end(doc, i) < e {
            line_end(doc, i)
        } else {
            e
        },
        after.position@ == if cat == Category::Position {
            before.position@.push(span)
        } else {
            before.position@
        },
        after.texcoord@ == if cat == Category::Texcoord {
            before.texcoord@.push(span)
        } else {
            before.texcoord@
        },
        after.normal@ == if cat == Category::Normal {
            before.normal@.push(span)
        } else {
            before.normal@
        },
        after.index@ == if cat == Category::IndexOrGroup {
            before.index@.push(span)
        } else {
            before.index@
        },
        after.unknown@ == if cat == Category::Unknown {
            before.unknown@.push(span)
        } else {
            before.unknown@
        },
    ensures
        ({
            let nxt = if line_end(doc, i) + 1 < e {
                line_end(doc, i) + 1
            } else {
                e
            };
            &&& spans_view(after.position@) + cat_spans(doc, nxt, e, Category::Position)
                == spans_view(before.position@) + cat_spans(doc, i, e, Category::Position)
            &&& spans_view(after.texcoord@) + cat_spans(doc, nxt, e, Category::Texcoord)
                == spans_view(before.texcoord@) + cat_spans(doc, i, e, Category::Texcoord)
            &&& spans_view(after.normal@) + cat_spans(doc, nxt, e, Category::Normal)
                == spans_view(before.normal@) + cat_spans(doc, i, e, Category::Normal)
            &&& spans_view(after.index@) + cat_spans(doc, nxt, e, Category::IndexOrGroup)
                == spans_view(before.index@) + cat_spans(doc, i, e, Category::IndexOrGroup)
            &&& spans_view(after.unknown@) + cat_spans(doc, nxt, e, Category::Unknown)
                == spans_view(before.unknown@) + cat_spans(doc, i, e, Category::Unknown)
        }),
{
    let le = line_end(doc, i);
    let stop = if le < e {
        le
    } else {
        e
    };
    let nxt = if le + 1 < e {
        le + 1
    } else {
        e
    };
    lemma_cat_step(doc, i, e, Category::Position, before.position@, after.position@, cat, span);
    lemma_cat_step(doc, i, e, Category::Texcoord, before.texcoord@, after.texcoord@, cat, span);
    lemma_cat_step(doc, i, e, Category::Normal, before.normal@, after.normal@, cat, span);
    lemma_cat_step(doc, i, e, Category::IndexOrGroup, before.index@, after.index@, cat, span);
    lemma_cat_step(doc, i, e, Category::Unknown, before.unknown@, after.unknown@, cat, span);
}

proof fn lemma_cat_step(
    doc: Seq<u8>,
    i: int,
    e: int,
    c: Category,
    bs: Seq<(usize, usize)>,
    afs: Seq<(usize, usize)>,
    cat: Category,
    span: (usize, usize),
)
    requires
        i < e,
        line_category(
            doc,
            i,
            if line_end(doc, i) < e {
                line_end(doc, i)
            } else {
                e
            },
        ) == cat,
        span.0 == i,
        span.1 == if line_end(doc, i) < e {
            line_end(doc, i)
        } else {
            e
        },
        afs == if cat == c {
            bs.push(span)
        } else {
            bs
        },
    ensures
        ({
            let nxt = if line_end(doc, i) + 1 < e {
                line_end(doc, i) + 1
            } else {
                e
            };
            spans_view(afs) + cat_spans(doc, nxt, e, c) == spans_view(bs) + cat_spans(doc, i, e, c)
        }),
{
    let le = line_end(doc, i);
    let stop = if le < e {
        le
    } else {
        e
    };
    let nxt = if le + 1 < e {
        le + 1
    } else {
        e
    };
    if cat == c {
        assert(cat_spans(doc, i, e, c) == seq![(i, stop)] + cat_spans(doc, nxt, e, c));
        assert(spans_view(bs.push(span)) =~= spans_view(bs).push((i, stop)));
        assert(spans_view(bs.push(span)) + cat_spans(doc, nxt, e, c) =~= spans_view(bs)
            + cat_spans(doc, i, e, c));
    } else {
        assert(cat_spans(doc, i, e, c) == cat_spans(doc, nxt, e, c));
    }
}

/// Byte size of one nominal chunk.
pub open spec fn chunk_size(len: int, n: int) -> int {
    len / n + 1
}

/// Nominal chunk boundaries: `id` steps of `cs` bytes from the start,
/// capped at the document's length.
pub open spec fn nominal_bound(len: int, cs: int, id: int) -> int
    decreases id,
{
    if id <= 0 {
        0
    } else {
        let p = nominal_bound(len, cs, id - 1);
        if len - p < cs {
            len
        } else {
            p + cs
        }
    }
}

pub proof fn lemma_nominal_bound_range(len: int, cs: int, id: int)
    requires
        0 <= len,
        1 <= cs,
    ensures
        0 <= nominal_bound(len, cs, id) <= len,
    decreases id,
{
    if id > 0 {
        lemma_nominal_bound_range(len, cs, id - 1);
    }
}

pub proof fn lemma_nominal_bound_monotone(len: int, cs: int, id: int, jd: int)
    requires
        0 <= len,
        1 <= cs,
        id <= jd,
    ensures
        nominal_bound(len, cs, id) <= nominal_bound(len, cs, jd),
    decreases jd - id,
{
    if id < jd {
        lemma_nominal_bound_monotone(len, cs, id, jd - 1);
        lemma_nominal_bound_range(len, cs, jd - 1);
    }
}

/// The corrected boundary of worker `id`: worker 0 starts at the document's
/// start, the last range ends at the document's end, and every interior
/// boundary is moved forward from its nominal position to the next line
/// start.
pub open spec fn chunk_bound(doc: Seq<u8>, n: int, id: int) -> int {
    if id <= 0 {
        0
    } else if id >= n {
        doc.len() as int
    } else {
        next_line_start(doc, nominal_bound(doc.len() as int, chunk_size(doc.len() as int, n), id))
    }
}

pub proof fn lemma_chunk_bound_props(doc: Seq<u8>, n: int, id: int)
    requires
        1 <= n,
        0 <= id <= n,
    ensures
        0 <= chunk_bound(doc, n, id) <= doc.len(),
        line_aligned(doc, chunk_bound(doc, n, id)),
{
    let len = doc.len() as int;
    let cs = chunk_size(len, n);
    assert(cs >= 1) by {
        assert(len / n >= 0) by {
            vstd::arithmetic::div_mod::lemma_div_pos_is_pos(len, n);
        }
    }
    if 0 < id < n {
        lemma_nominal_bound_range(len, cs, id);
        let p = nominal_bound(len, cs, id);
        lemma_line_end(doc, p);
    }
}

pub proof fn lemma_chunk_bound_monotone(doc: Seq<u8>, n: int, id: int, jd: int)
    requires
        1 <= n,
        0 <= id <= jd <= n,
    ensures
        chunk_bound(doc, n, id) <= chunk_bound(doc, n, jd),
{
    let len = doc.len() as int;
    let cs = chunk_size(len, n);
    assert(cs >= 1) by {
        assert(len / n >= 0) by {
            vstd::arithmetic::div_mod::lemma_div_pos_is_pos(len, n);
        }
    }
    lemma_chunk_bound_props(doc, n, id);
    lemma_chunk_bound_props(doc, n, jd);
    if 0 < id && jd < n && id < jd {
        let pi = nominal_bound(len, cs, id);
        let pj = nominal_bound(len, cs, jd);
        lemma_nominal_bound_range(len, cs, id);
        lemma_nominal_bound_range(len, cs, jd);
        lemma_nominal_bound_monotone(len, cs, id, jd);
        lemma_line_end_monotone(doc, pi, pj);
    }
}

/// The classified spans of the first `id` workers' ranges, concatenated in
/// worker-id order.
pub open spec fn chunks_concat(doc: Seq<u8>, n: int, cat: Category, id: int) -> Seq<(int, int)>
    decreases id,
{
    if id <= 0 {
        Seq::empty()
    } else {
        chunks_concat(doc, n, cat, id - 1) + cat_spans(
            doc,
            chunk_bound(doc, n, id - 1),
            chunk_bound(doc, n, id),
            cat,
        )
    }
}

/// Law of the chunk partitioner: for any worker count `n >= 1` and any
/// category, the workers' classified line spans, concatenated in worker-id
/// order, are exactly the sequential classification of the whole document;
/// and no line is assigned twice, since the sequential classification
/// lists strictly increasing, non-overlapping spans.
pub proof fn lemma_chunking_idempotent(doc: Seq<u8>, n: int, cat: Category)
    requires
        1 <= n,
    ensures
        chunks_concat(doc, n, cat, n) == cat_spans(doc, 0, doc.len() as int, cat),
        forall|k: int|
            0 <= k < cat_spans(doc, 0, doc.len() as int, cat).len() - 1 ==> (#[trigger] cat_spans(
                doc,
                0,
                doc.len() as int,
                cat,
            )[k]).1 < cat_spans(doc, 0, doc.len() as int, cat)[k + 1].0,
{
    lemma_chunks_concat_prefix(doc, n, cat, n);
    lemma_chunk_bound_props(doc, n, n);
    lemma_cat_spans_separated(doc, 0, doc.len() as int, cat);
}

/// The first `id` workers together classify exactly `[0, bound(id))`.
proof fn lemma_chunks_concat_prefix(doc: Seq<u8>, n: int, cat: Category, id: int)
    requires
        1 <= n,
        0 <= id <= n,
    ensures
        chunks_concat(doc, n, cat, id) == cat_spans(doc, 0, chunk_bound(doc, n, id), cat),
    decreases id,
{
    if id == 0 {
        assert(cat_spans(doc, 0, 0, cat) =~= Seq::<(int, int)>::empty());
    } else {
        lemma_chunks_concat_prefix(doc, n, cat, id - 1);
        lemma_chunk_bound_props(doc, n, id - 1);
        lemma_chunk_bound_props(doc, n, id);
        lemma_chunk_bound_monotone(doc, n, id - 1, id);
        lemma_cat_spans_split(doc, 0, chunk_bound(doc, n, id - 1), chunk_bound(doc, n, id), cat);
    }
}

/// The start of a line: the document's start or the byte after a
/// terminator.
pub open spec fn is_line_start(doc: Seq<u8>, p: int) -> bool {
    0 <= p < doc.len() && (p == 0 || is_newline(doc[p - 1]))
}

/// The whole-document classification is exact: a category's list holds
/// precisely the document's lines of that category, as full lines.  With
/// [`lemma_chunking_idempotent`] this says the workers' spans together
/// reconstruct exactly the set of classified lines — none omitted, and by
/// strict span separation none assigned twice.
pub proof fn lemma_classification_exact(doc: Seq<u8>, cat: Category)
    ensures
        forall|k: int|
            0 <= k < cat_spans(doc, 0, doc.len() as int, cat).len() ==> {
                let sp = #[trigger] cat_spans(doc, 0, doc.len() as int, cat)[k];
                &&& is_line_start(doc, sp.0)
                &&& sp.1 == line_end(doc, sp.0)
                &&& line_category(doc, sp.0, sp.1) == cat
            },
        forall|p: int|
            is_line_start(doc, p) && line_category(doc, p, line_end(doc, p)) == cat
                ==> #[trigger] cat_spans(doc, 0, doc.len() as int, cat).contains(
                (p, line_end(doc, p)),
            ),
{
    lemma_classification_exact_from(doc, 0, cat);
}

proof fn lemma_classification_exact_from(doc: Seq<u8>, i: int, cat: Category)
    requires
        0 <= i <= doc.len(),
        i == 0 || i == doc.len() || is_newline(doc[i - 1]),
    ensures
        forall|k: int|
            0 <= k < cat_spans(doc, i, doc.len() as int, cat).len() ==> {
                let sp = #[trigger] cat_spans(doc, i, doc.len() as int, cat)[k];
                &&& is_line_start(doc, sp.0)
                &&& sp.1 == line_end(doc, sp.0)
                &&& line_category(doc, sp.0, sp.1) == cat
            },
        forall|p: int|
            i <= p && is_line_start(doc, p) && line_category(doc, p, line_end(doc, p)) == cat
                ==> #[trigger] cat_spans(doc, i, doc.len() as int, cat).contains(
                (p, line_end(doc, p)),
            ),
    decreases doc.len() - i,
{
    let e = doc.len() as int;
    if i < e {
        let le = line_end(doc, i);
        lemma_line_end(doc, i);
        lemma_line_end_ge(doc, i);
        let stop = le;
        let nxt = if le + 1 < e {
            le + 1
        } else {
            e
        };
        if nxt < e {
            assert(is_newline(doc[nxt - 1]));
        }
        lemma_classification_exact_from(doc, nxt, cat);
        let ts = cat_spans(doc, i, e, cat);
        let rest = cat_spans(doc, nxt, e, cat);
        // Forward direction: every listed span is a line of this category.
        if line_category(doc, i, stop) == cat {
            assert(ts == seq![(i, stop)] + rest);
            assert forall|k: int| 0 <= k < ts.len() implies {
                let sp = #[trigger] ts[k];
                &&& is_line_start(doc, sp.0)
                &&& sp.1 == line_end(doc, sp.0)
                &&& line_category(doc, sp.0, sp.1) == cat
            } by {
                if k == 0 {
                    assert(ts[0] == (i, stop));
                    assert(is_line_start(doc, i));
                } else {
                    assert(ts[k] == rest[k - 1]);
                }
            }
        }
        // Backward direction: every later line start lies at or past `nxt`,
        // so the recursion lists it.
        assert forall|p: int|
            i <= p && is_line_start(doc, p) && line_category(doc, p, line_end(doc, p)) == cat
                implies #[trigger] ts.contains((p, line_end(doc, p))) by {
            if p == i {
                assert(ts[0] == (i, stop));
                assert(ts.contains(ts[0]));
            } else {
                // p > i starts a line, so doc[p - 1] is a terminator at or
                // after i, hence at or after the first one: p > le.
                assert(is_newline(doc[p - 1]));
                if p - 1 < le {
                    assert(!is_newline(doc[p - 1]));
                }
                assert(p >= nxt);
                assert(rest.contains((p, line_end(doc, p))));
                let j = choose|j: int|
                    0 <= j < rest.len() && rest[j] == (p, line_end(doc, p));
                if line_category(doc, i, stop) == cat {
                    assert(ts[j + 1] == rest[j]);
                    assert(ts.contains(ts[j + 1]));
                } else {
                    assert(ts == rest);
                }
            }
        }
    }
}

/// Classified spans never touch: each line ends strictly before the next
/// listed line starts.
pub proof fn lemma_cat_spans_separated(doc: Seq<u8>, i: int, e: int, cat: Category)
    requires
        0 <= i <= e <= doc.len(),
    ensures
        forall|k: int|
            0 <= k < cat_spans(doc, i, e, cat).len() - 1 ==> (#[trigger] cat_spans(
                doc,
                i,
                e,
                cat,
            )[k]).1 < cat_spans(doc, i, e, cat)[k + 1].0,
    decreases e - i,
{
    if i < e {
        let le = line_end(doc, i);
        lemma_line_end_ge(doc, i);
        let stop = if le < e {
            le
        } else {
            e
        };
        let nxt = if le + 1 < e {
            le + 1
        } else {
            e
        };
        lemma_cat_spans_separated(doc, nxt, e, cat);
        lemma_cat_spans_wf(doc, nxt, e, cat);
        let ts = cat_spans(doc, i, e, cat);
        let rest = cat_spans(doc, nxt, e, cat);
        if line_category(doc, i, stop) == cat {
            assert(ts == seq![(i, stop)] + rest);
            assert forall|k: int|
                0 <= k < ts.len() - 1 implies (#[trigger] ts[k]).1 < ts[k + 1].0 by {
                if k == 0 {
                    assert(ts[0] == (i, stop));
                    assert(ts[1] == rest[0]);
                    assert(rest[0].0 >= nxt);
                } else {
                    assert(ts[k] == rest[k - 1]);
                    assert(ts[k + 1] == rest[k]);
                }
            }
        }
    }
}

/// Computes the `n + 1` corrected chunk boundaries of `doc`.
pub fn chunk_bounds(doc: &[u8], n: usize) -> (r: Vec<usize>)
    requires
        1 <= n,
    ensures
        r@.len() == n + 1,
        forall|id: int| 0 <= id <= n ==> r@[id] as int == chunk_bound(doc@, n as int, id),
{
    let len = doc.len();
    let mut r: Vec<usize> = Vec::new();
    if n == 1 {
        r.push(0);
        r.push(len);
        return r;
    }
    proof {
        vstd::arithmetic::div_mod::lemma_div_is_ordered_by_denominator(len as int, 2, n as int);
        vstd::arithmetic::div_mod::lemma_div_is_ordered_by_denominator(len as int, 1, 2);
        vstd::arithmetic::div_mod::lemma_div_by_self(1);
        assert(len as int / 1 == len as int);
    }
    let cs = len / n + 1;
    r.push(0);
    let mut nominal: usize = 0;
    let mut id: usize = 1;
    while id < n
        invariant
            1 <= id <= n,
            1 <= n,
            len == doc@.len(),
            cs == chunk_size(len as int, n as int),
            r@.len() == id,
            nominal as int == nominal_bound(len as int, cs as int, id - 1),
            forall|k: int|
                0 <= k < id ==> r@[k] as int == chunk_bound(doc@, n as int, k),
        decreases n - id,
    {
        if len - nominal < cs {
            nominal = len;
        } else {
            nominal = nominal + cs;
        }
        assert(nominal as int == nominal_bound(len as int, cs as int, id as int));
        let le = find_line_end(doc, nominal);
        let b = if le < len {
            le + 1
        } else {
            len
        };
        proof {
            lemma_line_end(doc@, nominal as int);
            assert(b as int == next_line_start(doc@, nominal as int));
        }
        r.push(b);
        id = id + 1;
    }
    r.push(len);
    r
}

} // verus!
