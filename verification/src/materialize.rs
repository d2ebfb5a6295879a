//! Attribute materializer: parses numeric lines into one pre-sized flat
//! buffer per attribute kind.
//!
//! Phase 1 of the pipeline.  Entry counts are known once phase 0 finishes,
//! so each buffer is allocated to its exact final size before any write,
//! and every worker writes into a disjoint, contiguous sub-range of it:
//! [`materialize_bucket`]'s contract pins the sub-range a call may touch
//! and proves that it leaves everything else unchanged, which is the
//! no-gap/no-overlap invariant the phase rests on.

use vstd::prelude::*;

use crate::chunk::spans_view;
use crate::data::{ErrView, ParseError};
use crate::scalar::{parse_scalar, token_scalar, Scalar};
use crate::scan::{find_token_end, find_token_start, skip_spaces, token_end};

verus! {

/// How a single line fails to yield its numbers.
pub enum RowErr {
    /// Fewer numeric fields than the keyword requires.
    Missing,
    /// A field that is not a decimal literal.
    Malformed,
}

/// Reads `need` more numeric tokens starting at `i`, extending `acc`.
/// Extra fields after the required ones are ignored, as a consumer of the
/// grammar reads only the components its keyword promises.
pub open spec fn row_scan(
    doc: Seq<u8>,
    i: int,
    e: int,
    need: nat,
    acc: Seq<Scalar>,
) -> Result<Seq<Scalar>, RowErr>
    decreases need,
{
    if need == 0 {
        Ok(acc)
    } else {
        let a = skip_spaces(doc, i, e);
        if a >= e {
            Err(RowErr::Missing)
        } else {
            let b = token_end(doc, a, e);
            match token_scalar(doc.subrange(a, b)) {
                Some(v) => row_scan(doc, b, e, (need - 1) as nat, acc.push(v)),
                None => Err(RowErr::Malformed),
            }
        }
    }
}

/// The `comp` numbers of the attribute line `doc[s..e)`: the keyword token
/// is skipped, then `comp` numeric fields are read.
pub open spec fn line_row(doc: Seq<u8>, s: int, e: int, comp: nat) -> Result<Seq<Scalar>, RowErr> {
    let a = skip_spaces(doc, s, e);
    let b = token_end(doc, a, e);
    row_scan(doc, b, e, comp, Seq::empty())
}

/// A `RowErr` of the line `[s, e)` as a pipeline error.
pub open spec fn row_err_view(re: RowErr, s: int, e: int) -> ErrView {
    match re {
        RowErr::Missing => ErrView::MissingToken(s, e),
        RowErr::Malformed => ErrView::MalformedNumber(s, e),
    }
}

/// The concatenated rows of a span list, or the error of the first line
/// that fails, in document order.
pub open spec fn cat_rows(doc: Seq<u8>, spans: Seq<(int, int)>, comp: nat) -> Result<
    Seq<Scalar>,
    ErrView,
>
    decreases spans.len(),
{
    if spans.len() == 0 {
        Ok(Seq::empty())
    } else {
        match line_row(doc, spans[0].0, spans[0].1, comp) {
            Ok(row) => match cat_rows(doc, spans.drop_first(), comp) {
                Ok(rest) => Ok(row + rest),
                Err(e) => Err(e),
            },
            Err(re) => Err(row_err_view(re, spans[0].0, spans[0].1)),
        }
    }
}

/// Sequential composition of two row results: the rows concatenate, and
/// the leftmost error wins.
pub open spec fn chain_rows(
    a: Result<Seq<Scalar>, ErrView>,
    b: Result<Seq<Scalar>, ErrView>,
) -> Result<Seq<Scalar>, ErrView> {
    match a {
        Ok(x) => match b {
            Ok(y) => Ok(x + y),
            Err(e) => Err(e),
        },
        Err(e) => Err(e),
    }
}

/// Materializing a concatenation of span lists is the sequential
/// composition of materializing the parts.
pub proof fn lemma_cat_rows_concat(doc: Seq<u8>, s1: Seq<(int, int)>, s2: Seq<(int, int)>, comp: nat)
    ensures
        cat_rows(doc, s1 + s2, comp) == chain_rows(cat_rows(doc, s1, comp), cat_rows(doc, s2, comp)),
    decreases s1.len(),
{
    if s1.len() == 0 {
        assert(s1 + s2 =~= s2);
        match cat_rows(doc, s2, comp) {
            Ok(rest) => {
                assert(Seq::<Scalar>::empty() + rest =~= rest);
            },
            Err(_) => {},
        }
    } else {
        assert((s1 + s2)[0] == s1[0]);
        assert((s1 + s2).len() > 0);
        assert((s1 + s2).drop_first() =~= s1.drop_first() + s2);
        lemma_cat_rows_concat(doc, s1.drop_first(), s2, comp);
        match line_row(doc, s1[0].0, s1[0].1, comp) {
            Ok(row) => {
                match cat_rows(doc, s1.drop_first(), comp) {
                    Ok(r1) => {
                        match cat_rows(doc, s2, comp) {
                            Ok(r2) => {
                                assert(row + (r1 + r2) =~= (row + r1) + r2);
                            },
                            Err(_) => {},
                        }
                    },
                    Err(_) => {},
                }
            },
            Err(_) => {},
        }
    }
}

/// Every span lies inside `[lo, hi)`-style bounds of the document.
pub open spec fn spans_in(spans: Seq<(int, int)>, hi: int) -> bool {
    forall|k: int|
        0 <= k < spans.len() ==> 0 <= (#[trigger] spans[k]).0 <= spans[k].1 <= hi
}

/// Parses one attribute line and writes its `comp` numbers to
/// `buf[w..w + comp)`, leaving every other element of `buf` unchanged.
fn write_row(
    doc: &[u8],
    s: usize,
    e: usize,
    comp: usize,
    buf: &mut Vec<Scalar>,
    w: usize,
) -> (r: Result<(), ParseError>)
    requires
        s <= e <= doc@.len(),
        w + comp <= old(buf)@.len(),
    ensures
        final(buf)@.len() == old(buf)@.len(),
        forall|t: int|
            0 <= t < old(buf)@.len() && !(w <= t < w + comp) ==> final(buf)@[t] == old(buf)@[t],
        match r {
            Ok(()) => line_row(doc@, s as int, e as int, comp as nat) == Ok::<_, RowErr>(
                final(buf)@.subrange(w as int, w as int + comp as int),
            ),
            Err(er) => {
                &&& line_row(doc@, s as int, e as int, comp as nat) is Err
                &&& er@ == row_err_view(
                    line_row(doc@, s as int, e as int, comp as nat)->Err_0,
                    s as int,
                    e as int,
                )
            },
        },
{
    // Reading the length puts the fact that it fits a machine word in scope.
    let n = buf.len();
    assert(n == buf@.len());
    let a = find_token_start(doc, s, e);
    let b = find_token_end(doc, a, e);
    let mut cur = b;
    let mut j: usize = 0;
    let ghost mut row_acc: Seq<Scalar> = Seq::empty();
    while j < comp
        invariant
            j <= comp,
            s <= cur <= e <= doc@.len(),
            w + comp <= buf@.len(),
            buf@.len() <= usize::MAX,
            buf@.len() == old(buf)@.len(),
            forall|t: int|
                0 <= t < old(buf)@.len() && !(w <= t < w + j) ==> buf@[t] == old(buf)@[t],
            row_acc == buf@.subrange(w as int, w as int + j as int),
            line_row(doc@, s as int, e as int, comp as nat) == row_scan(
                doc@,
                cur as int,
                e as int,
                (comp - j) as nat,
                row_acc,
            ),
        decreases comp - j,
    {
        let a2 = find_token_start(doc, cur, e);
        if a2 >= e {
            return Err(ParseError::MissingToken(s, e));
        }
        let b2 = find_token_end(doc, a2, e);
        match parse_scalar(doc, a2, b2) {
            None => {
                return Err(ParseError::MalformedNumber(s, e));
            },
            Some(v) => {
                let ghost before = buf@;
                buf[w + j] = v;
                proof {
                    row_acc = row_acc.push(v);
                    assert(buf@ == before.update(w + j, v));
                    assert(row_acc =~= buf@.subrange(w as int, w as int + j as int + 1));
                }
                cur = b2;
                j = j + 1;
            },
        }
    }
    Ok(())
}

/// Phase-1 worker: parses every line of its bucket, writing the numbers
/// into its own sub-range `[offset, offset + comp * spans.len())` of the
/// shared buffer and touching nothing outside it.
pub fn materialize_bucket(
    doc: &[u8],
    spans: &Vec<(usize, usize)>,
    comp: usize,
    buf: &mut Vec<Scalar>,
    offset: usize,
) -> (r: Result<(), ParseError>)
    requires
        spans_in(spans_view(spans@), doc@.len() as int),
        offset + comp * spans@.len() <= old(buf)@.len(),
    ensures
        final(buf)@.len() == old(buf)@.len(),
        forall|t: int|
            0 <= t < old(buf)@.len() && !(offset <= t < offset + comp * spans@.len())
                ==> final(buf)@[t] == old(buf)@[t],
        match r {
            Ok(()) => {
                &&& cat_rows(doc@, spans_view(spans@), comp as nat) is Ok
                &&& final(buf)@.subrange(
                    offset as int,
                    offset as int + comp as int * spans@.len() as int,
                ) == cat_rows(doc@, spans_view(spans@), comp as nat)->Ok_0
            },
            Err(er) => {
                &&& cat_rows(doc@, spans_view(spans@), comp as nat) is Err
                &&& er@ == cat_rows(doc@, spans_view(spans@), comp as nat)->Err_0
            },
        },
{
    let ghost sv = spans_view(spans@);
    // Reading the length puts the fact that it fits a machine word in scope.
    let n = buf.len();
    assert(n == buf@.len());
    let mut k: usize = 0;
    let mut w = offset;
    proof {
        assert(buf@.subrange(offset as int, offset as int) =~= Seq::<Scalar>::empty());
        assert(sv.skip(0) =~= sv);
        match cat_rows(doc@, sv, comp as nat) {
            Ok(y) => {
                assert(Seq::<Scalar>::empty() + y =~= y);
            },
            Err(_) => {},
        }
    }
    while k < spans.len()
        invariant
            k <= spans@.len(),
            sv == spans_view(spans@),
            spans_in(sv, doc@.len() as int),
            w == offset + comp * k,
            offset + comp * spans@.len() <= buf@.len() <= usize::MAX,
            buf@.len() == old(buf)@.len(),
            forall|t: int|
                0 <= t < old(buf)@.len() && !(offset <= t < w) ==> buf@[t] == old(buf)@[t],
            cat_rows(doc@, sv, comp as nat) == chain_rows(
                Ok(buf@.subrange(offset as int, w as int)),
                cat_rows(doc@, sv.skip(k as int), comp as nat),
            ),
        decreases spans@.len() - k,
    {
        let (s, e) = spans[k];
        proof {
            assert(sv[k as int] == (s as int, e as int));
            assert(comp * k + comp == comp * (k + 1)) by (nonlinear_arith);
            assert(comp * (k + 1) <= comp * spans@.len()) by (nonlinear_arith)
                requires
                    k + 1 <= spans@.len(),
                    comp >= 0,
            ;
            assert(w + comp <= offset + comp * spans@.len());
        }
        let ghost before = buf@;
        let res = write_row(doc, s, e, comp, buf, w);
        proof {
            let rest = sv.skip(k as int);
            assert(rest.len() > 0);
            assert(rest[0] == (s as int, e as int));
            assert(rest.drop_first() =~= sv.skip(k as int + 1));
        }
        match res {
            Ok(()) => {
                proof {
                    let row = buf@.subrange(w as int, w as int + comp as int);
                    assert(buf@.subrange(offset as int, w as int) =~= before.subrange(
                        offset as int,
                        w as int,
                    ));
                    assert(buf@.subrange(offset as int, w as int + comp as int) =~= buf@.subrange(
                        offset as int,
                        w as int,
                    ) + row);
                    match cat_rows(doc@, sv.skip(k as int + 1), comp as nat) {
                        Ok(r2) => {
                            assert((buf@.subrange(offset as int, w as int) + row) + r2
                                =~= buf@.subrange(offset as int, w as int) + (row + r2));
                        },
                        Err(_) => {},
                    }
                }
                w = w + comp;
                k = k + 1;
            },
            Err(er) => {
                proof {
                    assert(cat_rows(doc@, sv, comp as nat) is Err);
                    assert(cat_rows(doc@, sv, comp as nat)->Err_0 == er@);
                }
                return Err(er);
            },
        }
    }
    proof {
        assert(sv.skip(sv.len() as int) =~= Seq::<(int, int)>::empty());
        match cat_rows(doc@, sv, comp as nat) {
            Ok(rows) => {
                assert(rows =~= buf@.subrange(offset as int, w as int) + Seq::<Scalar>::empty());
                assert(rows =~= buf@.subrange(offset as int, w as int));
            },
            Err(_) => {
                assert(false);
            },
        }
    }
    Ok(())
}

/// The piece of a flattening contributed by the inner sequence at `id`:
/// it starts right after the flattening of the first `id` inner sequences.
pub proof fn lemma_flatten_segment<A>(s: Seq<Seq<A>>, id: int)
    requires
        0 <= id < s.len(),
    ensures
        s.take(id).flatten().len() + s[id].len() <= s.flatten().len(),
        s.take(id + 1).flatten() == s.take(id).flatten() + s[id],
        s.take(id + 1).flatten().len() == s.take(id).flatten().len() + s[id].len(),
        forall|t: int|
            0 <= t < s[id].len() ==> s.flatten()[s.take(id).flatten().len() + t] == s[id][t],
{
    assert(s.take(id + 1) =~= s.take(id).push(s[id]));
    s.take(id).lemma_flatten_push(s[id]);
    vstd::seq_lib::lemma_flatten_concat(s.take(id + 1), s.skip(id + 1));
    assert(s.take(id + 1) + s.skip(id + 1) =~= s);
    let pre = s.take(id).flatten();
    assert(s.flatten() == (pre + s[id]) + s.skip(id + 1).flatten());
    assert forall|t: int|
        0 <= t < s[id].len() implies s.flatten()[pre.len() + t] == s[id][t] by {
        assert(((pre + s[id]) + s.skip(id + 1).flatten())[pre.len() + t] == (pre + s[id])[pre.len()
            + t]);
    }
}

/// Materializes one whole attribute category from its rebalanced buckets.
/// The buffer is allocated to its exact final size before any write, and
/// the buckets fill it left to right with no gap and no overlap.
pub fn materialize_category(
    doc: &[u8],
    buckets: &Vec<Vec<(usize, usize)>>,
    comp: usize,
) -> (r: Result<Vec<Scalar>, ParseError>)
    requires
        1 <= comp <= 3,
        spans_in(crate::rebalance::buckets_view(buckets@).flatten(), doc@.len() as int),
        comp * crate::rebalance::buckets_view(buckets@).flatten().len() <= usize::MAX,
    ensures
        ({
            let flat = crate::rebalance::buckets_view(buckets@).flatten();
            match r {
                Ok(buf) => {
                    &&& cat_rows(doc@, flat, comp as nat) is Ok
                    &&& buf@ == cat_rows(doc@, flat, comp as nat)->Ok_0
                    &&& buf@.len() == comp * flat.len()
                },
                Err(er) => {
                    &&& cat_rows(doc@, flat, comp as nat) is Err
                    &&& er@ == cat_rows(doc@, flat, comp as nat)->Err_0
                },
            }
        }),
{
    let ghost bv = crate::rebalance::buckets_view(buckets@);
    let ghost flat = bv.flatten();
    // Exact total entry count, known before any write happens.
    let mut total: usize = 0;
    let mut i: usize = 0;
    while i < buckets.len()
        invariant
            i <= buckets@.len(),
            bv == crate::rebalance::buckets_view(buckets@),
            flat == bv.flatten(),
            total == bv.take(i as int).flatten().len(),
            bv.take(i as int).flatten().len() <= flat.len(),
            comp * flat.len() <= usize::MAX,
            1 <= comp <= 3,
        decreases buckets@.len() - i,
    {
        proof {
            lemma_flatten_segment(bv, i as int);
            assert(spans_view(buckets@[i as int]@) == bv[i as int]);
            assert(flat.len() <= comp * flat.len()) by (nonlinear_arith)
                requires
                    comp >= 1,
            ;
        }
        total = total + buckets[i].len();
        i = i + 1;
    }
    proof {
        assert(bv.take(buckets@.len() as int) =~= bv);
    }
    let size = comp * total;
    let zero = Scalar::zero();
    let mut buf: Vec<Scalar> = Vec::new();
    let mut z: usize = 0;
    while z < size
        invariant
            buf@.len() == z <= size,
        decreases size - z,
    {
        buf.push(zero);
        z = z + 1;
    }
    proof {
        assert(buf@.subrange(0, 0) =~= Seq::<Scalar>::empty());
        assert(flat.skip(0) =~= flat);
        assert(bv.take(0).flatten() =~= Seq::<(int, int)>::empty());
        match cat_rows(doc@, flat, comp as nat) {
            Ok(y) => {
                assert(Seq::<Scalar>::empty() + y =~= y);
            },
            Err(_) => {},
        }
    }
    let mut id: usize = 0;
    let mut w: usize = 0;
    while id < buckets.len()
        invariant
            id <= buckets@.len(),
            bv == crate::rebalance::buckets_view(buckets@),
            flat == bv.flatten(),
            1 <= comp <= 3,
            spans_in(flat, doc@.len() as int),
            comp * flat.len() <= usize::MAX,
            buf@.len() == comp * flat.len(),
            w == comp * bv.take(id as int).flatten().len(),
            bv.take(id as int).flatten().len() <= flat.len(),
            cat_rows(doc@, flat, comp as nat) == chain_rows(
                Ok(buf@.subrange(0, w as int)),
                cat_rows(doc@, flat.skip(bv.take(id as int).flatten().len() as int), comp as nat),
            ),
        decreases buckets@.len() - id,
    {
        let ghost pre = bv.take(id as int).flatten();
        let ghost bsp = bv[id as int];
        proof {
            lemma_flatten_segment(bv, id as int);
            assert(spans_view(buckets@[id as int]@) == bsp);
            assert(spans_in(bsp, doc@.len() as int)) by {
                assert(forall|t: int|
                    0 <= t < bsp.len() ==> (#[trigger] bsp[t]) == flat[pre.len() + t]);
            }
            assert(comp * pre.len() + comp * bsp.len() == comp * (pre.len() + bsp.len()))
                by (nonlinear_arith);
            assert(comp * (pre.len() + bsp.len()) <= comp * flat.len()) by (nonlinear_arith)
                requires
                    pre.len() + bsp.len() <= flat.len(),
                    comp >= 0,
            ;
            // The rest of the document's spans split at this bucket.
            assert(flat.skip(pre.len() as int) =~= bsp + flat.skip(
                pre.len() + bsp.len() as int,
            )) by {
                assert(forall|t: int|
                    0 <= t < bsp.len() ==> (#[trigger] bsp[t]) == flat[pre.len() + t]);
            }
        }
        let ghost before = buf@;
        let res = materialize_bucket(doc, &buckets[id], comp, &mut buf, w);
        match res {
            Ok(()) => {
                proof {
                    lemma_cat_rows_concat(
                        doc@,
                        bsp,
                        flat.skip(pre.len() + bsp.len() as int),
                        comp as nat,
                    );
                    let rows = cat_rows(doc@, bsp, comp as nat)->Ok_0;
                    assert(buf@.subrange(0, w as int) =~= before.subrange(0, w as int));
                    assert(buf@.subrange(0, w as int + comp as int * bsp.len() as int)
                        =~= buf@.subrange(0, w as int) + buf@.subrange(
                        w as int,
                        w as int + comp as int * bsp.len() as int,
                    ));
                    match cat_rows(doc@, flat.skip(pre.len() + bsp.len() as int), comp as nat) {
                        Ok(r2) => {
                            assert((buf@.subrange(0, w as int) + rows) + r2 =~= buf@.subrange(
                                0,
                                w as int,
                            ) + (rows + r2));
                        },
                        Err(_) => {},
                    }
                }
                w = w + comp * buckets[id].len();
                id = id + 1;
            },
            Err(er) => {
                proof {
                    lemma_cat_rows_concat(
                        doc@,
                        bsp,
                        flat.skip(pre.len() + bsp.len() as int),
                        comp as nat,
                    );
                }
                return Err(er);
            },
        }
    }
    proof {
        assert(bv.take(buckets@.len() as int) =~= bv);
        assert(flat.skip(flat.len() as int) =~= Seq::<(int, int)>::empty());
        match cat_rows(doc@, flat, comp as nat) {
            Ok(rows) => {
                assert(rows =~= buf@.subrange(0, w as int) + Seq::<Scalar>::empty());
                assert(buf@.subrange(0, w as int) =~= buf@);
            },
            Err(_) => {
                assert(false);
            },
        }
    }
    Ok(buf)
}

} // verus!
