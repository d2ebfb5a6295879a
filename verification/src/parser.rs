//! The pipeline driver: chunk, classify, rebalance, materialize, assemble.
//!
//! [`obj_model`] is the specification of the whole parse: a sequential
//! left-to-right reading of the document.  [`parse_obj_threaded`] runs the
//! multi-phase pipeline with any worker count `n >= 1` and is proved to
//! return exactly the model's result — the output does not depend on the
//! worker count, on chunk boundaries, or on the order the per-worker jobs
//! would complete in, because every per-worker function is pure and the
//! reassembly steps are proved order-preserving.

use vstd::prelude::*;

use crate::assemble::{assemble_bucket, assemble_spans, stitch, stitch_groups};
use crate::chunk::{
    cat_spans, chunk_bound, chunk_bounds, classify_range, lemma_cat_spans_split,
    lemma_cat_spans_wf, lemma_chunk_bound_monotone, lemma_chunk_bound_props, spans_view, Category,
};
use crate::data::{empty_group, ErrView, GroupView, Groups, ParseError, VertexData};
use crate::materialize::{
    cat_rows, lemma_flatten_segment, materialize_category, spans_in,
};
use crate::rebalance::{balanced, buckets_view, rebalance};

verus! {

/// The per-category results of phase 0 after rebalancing: for each
/// category, exactly `n` count-balanced buckets of line spans in document
/// order; unrecognized keyword lines are kept aside for reporting.
pub struct Rebalanced {
    pub position: Vec<Vec<(usize, usize)>>,
    pub texcoord: Vec<Vec<(usize, usize)>>,
    pub normal: Vec<Vec<(usize, usize)>>,
    pub index: Vec<Vec<(usize, usize)>>,
    pub unknown: Vec<(usize, usize)>,
}

/// Phase 0 and the rebalancer: cuts the document into `n` line-aligned
/// chunks, classifies every line of every chunk, and re-buckets each
/// category by item count.  The concatenation of each category's buckets
/// is exactly the sequential classification of the whole document.
pub fn extract_vertices_and_indices(doc: &[u8], n: usize) -> (r: Rebalanced)
    requires
        1 <= n,
        doc@.len() < usize::MAX,
    ensures
        ({
            let len = doc@.len() as int;
            &&& buckets_view(r.position@).flatten() == cat_spans(doc@, 0, len, Category::Position)
            &&& buckets_view(r.texcoord@).flatten() == cat_spans(doc@, 0, len, Category::Texcoord)
            &&& buckets_view(r.normal@).flatten() == cat_spans(doc@, 0, len, Category::Normal)
            &&& buckets_view(r.index@).flatten() == cat_spans(doc@, 0, len, Category::IndexOrGroup)
            &&& spans_view(r.unknown@) == cat_spans(doc@, 0, len, Category::Unknown)
            &&& balanced(buckets_view(r.position@), n as int)
            &&& balanced(buckets_view(r.texcoord@), n as int)
            &&& balanced(buckets_view(r.normal@), n as int)
            &&& balanced(buckets_view(r.index@), n as int)
        }),
{
    let len = doc.len();
    let bounds = chunk_bounds(doc, n);
    let mut position_lists: Vec<Vec<(usize, usize)>> = Vec::new();
    let mut texcoord_lists: Vec<Vec<(usize, usize)>> = Vec::new();
    let mut normal_lists: Vec<Vec<(usize, usize)>> = Vec::new();
    let mut index_lists: Vec<Vec<(usize, usize)>> = Vec::new();
    let mut unknown: Vec<(usize, usize)> = Vec::new();
    proof {
        assert(buckets_view(position_lists@).flatten() =~= Seq::<(int, int)>::empty());
        assert(buckets_view(texcoord_lists@).flatten() =~= Seq::<(int, int)>::empty());
        assert(buckets_view(normal_lists@).flatten() =~= Seq::<(int, int)>::empty());
        assert(buckets_view(index_lists@).flatten() =~= Seq::<(int, int)>::empty());
        assert(cat_spans(doc@, 0, 0, Category::Position) =~= Seq::<(int, int)>::empty());
        assert(cat_spans(doc@, 0, 0, Category::Texcoord) =~= Seq::<(int, int)>::empty());
        assert(cat_spans(doc@, 0, 0, Category::Normal) =~= Seq::<(int, int)>::empty());
        assert(cat_spans(doc@, 0, 0, Category::IndexOrGroup) =~= Seq::<(int, int)>::empty());
        assert(cat_spans(doc@, 0, 0, Category::Unknown) =~= Seq::<(int, int)>::empty());
        assert(spans_view(unknown@) =~= Seq::<(int, int)>::empty());
    }
    let mut id: usize = 0;
    while id < n
        invariant
            id <= n,
            1 <= n,
            len == doc@.len() < usize::MAX,
            bounds@.len() == n + 1,
            forall|k: int| 0 <= k <= n ==> bounds@[k] as int == chunk_bound(doc@, n as int, k),
            buckets_view(position_lists@).flatten() == cat_spans(
                doc@,
                0,
                chunk_bound(doc@, n as int, id as int),
                Category::Position,
            ),
            buckets_view(texcoord_lists@).flatten() == cat_spans(
                doc@,
                0,
                chunk_bound(doc@, n as int, id as int),
                Category::Texcoord,
            ),
            buckets_view(normal_lists@).flatten() == cat_spans(
                doc@,
                0,
                chunk_bound(doc@, n as int, id as int),
                Category::Normal,
            ),
            buckets_view(index_lists@).flatten() == cat_spans(
                doc@,
                0,
                chunk_bound(doc@, n as int, id as int),
                Category::IndexOrGroup,
            ),
            spans_view(unknown@) == cat_spans(
                doc@,
                0,
                chunk_bound(doc@, n as int, id as int),
                Category::Unknown,
            ),
        decreases n - id,
    {
        proof {
            lemma_chunk_bound_props(doc@, n as int, id as int);
            lemma_chunk_bound_props(doc@, n as int, id as int + 1);
            lemma_chunk_bound_monotone(doc@, n as int, id as int, id as int + 1);
        }
        let s = bounds[id];
        let e = bounds[id + 1];
        let mut cls = classify_range(doc, s, e);
        proof {
            lemma_cat_spans_split(doc@, 0, s as int, e as int, Category::Position);
            lemma_cat_spans_split(doc@, 0, s as int, e as int, Category::Texcoord);
            lemma_cat_spans_split(doc@, 0, s as int, e as int, Category::Normal);
            lemma_cat_spans_split(doc@, 0, s as int, e as int, Category::IndexOrGroup);
            lemma_cat_spans_split(doc@, 0, s as int, e as int, Category::Unknown);
        }
        let ghost bp = buckets_view(position_lists@);
        let ghost bt = buckets_view(texcoord_lists@);
        let ghost bn = buckets_view(normal_lists@);
        let ghost bi = buckets_view(index_lists@);
        let ghost bu = spans_view(unknown@);
        let ghost cu = spans_view(cls.unknown@);
        position_lists.push(cls.position);
        texcoord_lists.push(cls.texcoord);
        normal_lists.push(cls.normal);
        index_lists.push(cls.index);
        unknown.append(&mut cls.unknown);
        proof {
            assert(buckets_view(position_lists@) =~~= bp.push(
                cat_spans(doc@, s as int, e as int, Category::Position),
            ));
            bp.lemma_flatten_push(cat_spans(doc@, s as int, e as int, Category::Position));
            assert(buckets_view(texcoord_lists@) =~~= bt.push(
                cat_spans(doc@, s as int, e as int, Category::Texcoord),
            ));
            bt.lemma_flatten_push(cat_spans(doc@, s as int, e as int, Category::Texcoord));
            assert(buckets_view(normal_lists@) =~~= bn.push(
                cat_spans(doc@, s as int, e as int, Category::Normal),
            ));
            bn.lemma_flatten_push(cat_spans(doc@, s as int, e as int, Category::Normal));
            assert(buckets_view(index_lists@) =~~= bi.push(
                cat_spans(doc@, s as int, e as int, Category::IndexOrGroup),
            ));
            bi.lemma_flatten_push(cat_spans(doc@, s as int, e as int, Category::IndexOrGroup));
            assert(spans_view(unknown@) =~= bu + cu);
        }
        id = id + 1;
    }
    proof {
        let dlen = doc@.len() as int;
        lemma_cat_spans_wf(doc@, 0, dlen, Category::Position);
        lemma_cat_spans_wf(doc@, 0, dlen, Category::Texcoord);
        lemma_cat_spans_wf(doc@, 0, dlen, Category::Normal);
        lemma_cat_spans_wf(doc@, 0, dlen, Category::IndexOrGroup);
    }
    let position = rebalance(&position_lists, n);
    let texcoord = rebalance(&texcoord_lists, n);
    let normal = rebalance(&normal_lists, n);
    let index = rebalance(&index_lists, n);
    Rebalanced { position, texcoord, normal, index, unknown }
}

/// The attribute buffers of a document whose category span lists are
/// `ps`/`ts`/`ns`: all three materialize, or the first failure wins, in
/// position/texcoord/normal phase order.
pub open spec fn attrs_result(
    doc: Seq<u8>,
    ps: Seq<(int, int)>,
    ts: Seq<(int, int)>,
    ns: Seq<(int, int)>,
) -> Result<GroupView, ErrView> {
    match cat_rows(doc, ps, 3) {
        Err(e) => Err(e),
        Ok(p) => match cat_rows(doc, ts, 2) {
            Err(e) => Err(e),
            Ok(t) => match cat_rows(doc, ns, 3) {
                Err(e) => Err(e),
                Ok(nn) => Ok(GroupView { position: p, texcoord: t, normal: nn }),
            },
        },
    }
}

/// Phase 1: materializes the three attribute buffers from their
/// rebalanced buckets.
pub fn parse_vertex(
    doc: &[u8],
    position: &Vec<Vec<(usize, usize)>>,
    texcoord: &Vec<Vec<(usize, usize)>>,
    normal: &Vec<Vec<(usize, usize)>>,
) -> (r: Result<VertexData, ParseError>)
    requires
        spans_in(buckets_view(position@).flatten(), doc@.len() as int),
        spans_in(buckets_view(texcoord@).flatten(), doc@.len() as int),
        spans_in(buckets_view(normal@).flatten(), doc@.len() as int),
        3 * buckets_view(position@).flatten().len() <= usize::MAX,
        2 * buckets_view(texcoord@).flatten().len() <= usize::MAX,
        3 * buckets_view(normal@).flatten().len() <= usize::MAX,
    ensures
        ({
            let m = attrs_result(
                doc@,
                buckets_view(position@).flatten(),
                buckets_view(texcoord@).flatten(),
                buckets_view(normal@).flatten(),
            );
            match r {
                Ok(vd) => m == Ok::<GroupView, ErrView>(vd@),
                Err(er) => m is Err && er@ == m->Err_0,
            }
        }),
{
    let pbuf = match materialize_category(doc, position, 3) {
        Ok(b) => b,
        Err(er) => {
            return Err(er);
        },
    };
    let tbuf = match materialize_category(doc, texcoord, 2) {
        Ok(b) => b,
        Err(er) => {
            return Err(er);
        },
    };
    let nbuf = match materialize_category(doc, normal, 3) {
        Ok(b) => b,
        Err(er) => {
            return Err(er);
        },
    };
    Ok(VertexData { position: pbuf, texcoord: tbuf, normal: nbuf })
}

/// Phase 2 and stitching: assembles every index bucket into local group
/// lists and merges them in worker order into the global, document-ordered
/// group list.
pub fn parse_index(
    doc: &[u8],
    index: &Vec<Vec<(usize, usize)>>,
    vertex_data: &VertexData,
) -> (r: Result<Groups, ParseError>)
    requires
        index@.len() >= 1,
        spans_in(buckets_view(index@).flatten(), doc@.len() as int),
    ensures
        ({
            let m = assemble_spans(
                doc@,
                buckets_view(index@).flatten(),
                vertex_data@,
                seq![empty_group()],
            );
            match r {
                Ok(gs) => m == Ok::<Seq<GroupView>, ErrView>(gs.deep_view()) && gs@.len() >= 1,
                Err(er) => m is Err && er@ == m->Err_0,
            }
        }),
{
    let ghost bv = buckets_view(index@);
    let ghost flat = bv.flatten();
    let ghost attrs = vertex_data@;
    let mut global: Vec<VertexData> = Vec::new();
    let mut id: usize = 0;
    while id < index.len()
        invariant
            id <= index@.len(),
            bv == buckets_view(index@),
            flat == bv.flatten(),
            attrs == vertex_data@,
            spans_in(flat, doc@.len() as int),
            id == 0 ==> global@.len() == 0,
            id >= 1 ==> assemble_spans(doc@, bv.take(id as int).flatten(), attrs, seq![
                empty_group(),
            ]) == Ok::<Seq<GroupView>, ErrView>(global.deep_view()) && global@.len() >= 1,
        decreases index@.len() - id,
    {
        let ghost pre = bv.take(id as int).flatten();
        let ghost bsp = bv[id as int];
        proof {
            lemma_flatten_segment(bv, id as int);
            assert(spans_view(index@[id as int]@) == bsp);
            assert(spans_in(bsp, doc@.len() as int)) by {
                assert(forall|t: int|
                    0 <= t < bsp.len() ==> (#[trigger] bsp[t]) == flat[pre.len() + t]);
            }
        }
        match assemble_bucket(doc, &index[id], vertex_data) {
            Ok(local) => {
                let ghost gdv = global.deep_view();
                let ghost ldv = local.deep_view();
                proof {
                    crate::assemble::lemma_assemble_concat(
                        doc@,
                        pre,
                        bsp,
                        attrs,
                        seq![empty_group()],
                    );
                    if id == 0 {
                        assert(pre =~= Seq::<(int, int)>::empty());
                        assert(gdv =~= Seq::<GroupView>::empty());
                        assert(assemble_spans(doc@, pre, attrs, seq![empty_group()]) == Ok::<
                            Seq<GroupView>,
                            ErrView,
                        >(seq![empty_group()]));
                    } else {
                        crate::assemble::lemma_assemble_stitch(doc@, bsp, attrs, gdv);
                    }
                }
                stitch_groups(&mut global, local);
                proof {
                    assert(bv.take(id as int + 1).flatten() == pre + bsp);
                    if id == 0 {
                        assert(global.deep_view() == stitch(gdv, ldv));
                        assert(stitch(gdv, ldv) == ldv);
                        assert(assemble_spans(doc@, pre + bsp, attrs, seq![empty_group()]) == Ok::<
                            Seq<GroupView>,
                            ErrView,
                        >(ldv)) by {
                            assert(assemble_spans(doc@, bsp, attrs, seq![empty_group()]) == Ok::<
                                Seq<GroupView>,
                                ErrView,
                            >(ldv));
                        }
                    }
                }
                id = id + 1;
            },
            Err(er) => {
                proof {
                    vstd::seq_lib::lemma_flatten_concat(
                        bv.take(id as int + 1),
                        bv.skip(id as int + 1),
                    );
                    assert(bv.take(id as int + 1) + bv.skip(id as int + 1) =~= bv);
                    assert(bv.take(id as int + 1).flatten() == pre + bsp);
                    assert(flat =~= (pre + bsp) + bv.skip(id as int + 1).flatten());
                    crate::assemble::lemma_assemble_concat(
                        doc@,
                        pre + bsp,
                        bv.skip(id as int + 1).flatten(),
                        attrs,
                        seq![empty_group()],
                    );
                    crate::assemble::lemma_assemble_concat(
                        doc@,
                        pre,
                        bsp,
                        attrs,
                        seq![empty_group()],
                    );
                    if id == 0 {
                        assert(pre =~= Seq::<(int, int)>::empty());
                        assert(assemble_spans(doc@, pre, attrs, seq![empty_group()]) == Ok::<
                            Seq<GroupView>,
                            ErrView,
                        >(seq![empty_group()]));
                    } else {
                        crate::assemble::lemma_assemble_stitch(
                            doc@,
                            bsp,
                            attrs,
                            global.deep_view(),
                        );
                    }
                }
                return Err(er);
            },
        }
    }
    proof {
        assert(bv.take(index@.len() as int) =~= bv);
    }
    Ok(global)
}

/// The whole parse, specified sequentially: classify every line of the
/// document in order, materialize the three attribute buffers, then fold
/// the face and group lines left to right into groups.  The first failing
/// line wins, attribute phases before the index phase.
pub open spec fn obj_model(doc: Seq<u8>) -> Result<Seq<GroupView>, ErrView> {
    let len = doc.len() as int;
    match attrs_result(
        doc,
        cat_spans(doc, 0, len, Category::Position),
        cat_spans(doc, 0, len, Category::Texcoord),
        cat_spans(doc, 0, len, Category::Normal),
    ) {
        Err(e) => Err(e),
        Ok(attrs) => assemble_spans(
            doc,
            cat_spans(doc, 0, len, Category::IndexOrGroup),
            attrs,
            seq![empty_group()],
        ),
    }
}

/// All groups' attribute streams, concatenated in order into one stream.
pub open spec fn flatten_groups(gs: Seq<GroupView>) -> GroupView
    decreases gs.len(),
{
    if gs.len() == 0 {
        empty_group()
    } else {
        crate::data::merge_groups(flatten_groups(gs.drop_last()), gs.last())
    }
}

/// One line of the reference parser: a face appends its fan to the single
/// output stream, a group marker changes nothing.
pub open spec fn ref_line_effect(
    doc: Seq<u8>,
    s: int,
    e: int,
    attrs: GroupView,
    g: GroupView,
) -> Result<GroupView, ErrView> {
    let a = crate::scan::skip_spaces(doc, s, e);
    if a >= e {
        Ok(g)
    } else if doc[a] == 103 {
        Ok(g)
    } else {
        crate::assemble::face_effect(doc, s, e, attrs, g)
    }
}

/// The reference parser's fold over the index lines: one ungrouped stream.
pub open spec fn ref_assemble(
    doc: Seq<u8>,
    spans: Seq<(int, int)>,
    attrs: GroupView,
    g: GroupView,
) -> Result<GroupView, ErrView>
    decreases spans.len(),
{
    if spans.len() == 0 {
        Ok(g)
    } else {
        match ref_line_effect(doc, spans[0].0, spans[0].1, attrs, g) {
            Ok(g2) => ref_assemble(doc, spans.drop_first(), attrs, g2),
            Err(e2) => Err(e2),
        }
    }
}

/// The sequential reference parser: the same grammar, producing a single
/// ungrouped vertex-attribute stream.
pub open spec fn reference_model(doc: Seq<u8>) -> Result<GroupView, ErrView> {
    let len = doc.len() as int;
    match attrs_result(
        doc,
        cat_spans(doc, 0, len, Category::Position),
        cat_spans(doc, 0, len, Category::Texcoord),
        cat_spans(doc, 0, len, Category::Normal),
    ) {
        Err(e) => Err(e),
        Ok(attrs) => ref_assemble(
            doc,
            cat_spans(doc, 0, len, Category::IndexOrGroup),
            attrs,
            empty_group(),
        ),
    }
}

/// Group markers only partition the stream: folding the index lines with
/// group tracking and flattening the groups afterwards gives the same
/// stream as folding them without any group tracking.
proof fn lemma_assemble_flatten(
    doc: Seq<u8>,
    spans: Seq<(int, int)>,
    attrs: GroupView,
    acc: Seq<GroupView>,
)
    requires
        acc.len() >= 1,
    ensures
        ref_assemble(doc, spans, attrs, flatten_groups(acc)) == match assemble_spans(
            doc,
            spans,
            attrs,
            acc,
        ) {
            Ok(l) => Ok(flatten_groups(l)),
            Err(e2) => Err(e2),
        },
    decreases spans.len(),
{
    if spans.len() > 0 {
        let s = spans[0].0;
        let e = spans[0].1;
        let a = crate::scan::skip_spaces(doc, s, e);
        let rest = spans.drop_first();
        if a >= e {
            lemma_assemble_flatten(doc, rest, attrs, acc);
        } else if doc[a] == 103 {
            let acc2 = acc.push(empty_group());
            assert(flatten_groups(acc2) == flatten_groups(acc)) by {
                assert(acc2.drop_last() =~= acc);
                assert(acc2.last() == empty_group());
                lemma_merge_empty(flatten_groups(acc));
            }
            lemma_assemble_flatten(doc, rest, attrs, acc2);
        } else {
            let front = flatten_groups(acc.drop_last());
            assert(flatten_groups(acc) == crate::data::merge_groups(front, acc.last()));
            crate::assemble::lemma_face_merge(doc, s, e, attrs, front, acc.last());
            match crate::assemble::face_effect(doc, s, e, attrs, acc.last()) {
                Ok(g2) => {
                    let acc2 = acc.update(acc.len() - 1, g2);
                    assert(flatten_groups(acc2) == crate::data::merge_groups(front, g2)) by {
                        assert(acc2.drop_last() =~= acc.drop_last());
                        assert(acc2.last() == g2);
                    }
                    lemma_assemble_flatten(doc, rest, attrs, acc2);
                },
                Err(_) => {},
            }
        }
    }
}

/// Merging nothing onto a group leaves it as it is.
proof fn lemma_merge_empty(g: GroupView)
    ensures
        crate::data::merge_groups(g, empty_group()) == g,
{
    assert(crate::data::merge_groups(g, empty_group()).position =~= g.position);
    assert(crate::data::merge_groups(g, empty_group()).texcoord =~= g.texcoord);
    assert(crate::data::merge_groups(g, empty_group()).normal =~= g.normal);
}

/// Equivalence law: for any document, the parallel pipeline's groups,
/// flattened in order into one stream, are exactly the reference parser's
/// single stream — and the two reject exactly the same documents, with the
/// same error.
pub proof fn lemma_parallel_reference_equivalence(doc: Seq<u8>)
    ensures
        match obj_model(doc) {
            Ok(gs) => reference_model(doc) == Ok::<GroupView, ErrView>(flatten_groups(gs)),
            Err(e) => reference_model(doc) == Err::<GroupView, ErrView>(e),
        },
{
    let len = doc.len() as int;
    match attrs_result(
        doc,
        cat_spans(doc, 0, len, Category::Position),
        cat_spans(doc, 0, len, Category::Texcoord),
        cat_spans(doc, 0, len, Category::Normal),
    ) {
        Err(_) => {},
        Ok(attrs) => {
            lemma_assemble_flatten(
                doc,
                cat_spans(doc, 0, len, Category::IndexOrGroup),
                attrs,
                seq![empty_group()],
            );
            assert(flatten_groups(seq![empty_group()]) == empty_group()) by {
                assert(seq![empty_group()].drop_last() =~= Seq::<GroupView>::empty());
                lemma_merge_empty(flatten_groups(Seq::<GroupView>::empty()));
                assert(flatten_groups(Seq::<GroupView>::empty()) == empty_group());
                assert(crate::data::merge_groups(empty_group(), empty_group()) == empty_group())
                    by {
                    lemma_merge_empty(empty_group());
                }
            }
        },
    }
}

/// Group-count law: a successful parse yields exactly one group per `g`
/// marker line, plus the implicit leading group.  A document with two
/// markers whose faces all resolve thus parses to exactly three groups
/// (leading or trailing ones possibly empty), and by
/// [`lemma_parallel_reference_equivalence`] their concatenated streams
/// equal the sequential reference parse.
pub proof fn lemma_group_count(doc: Seq<u8>)
    ensures
        obj_model(doc) is Ok ==> obj_model(doc)->Ok_0.len() == 1 + crate::assemble::marker_count(
            doc,
            cat_spans(doc, 0, doc.len() as int, Category::IndexOrGroup),
        ),
{
    let len = doc.len() as int;
    match attrs_result(
        doc,
        cat_spans(doc, 0, len, Category::Position),
        cat_spans(doc, 0, len, Category::Texcoord),
        cat_spans(doc, 0, len, Category::Normal),
    ) {
        Err(_) => {},
        Ok(attrs) => {
            crate::assemble::lemma_assemble_group_count(
                doc,
                cat_spans(doc, 0, len, Category::IndexOrGroup),
                attrs,
                seq![empty_group()],
            );
        },
    }
}

/// The reference oracle: parses the document sequentially into one
/// ungrouped stream, for checking the pipeline's output against.
pub fn reference_parse(doc: &[u8]) -> (r: Result<VertexData, ParseError>)
    requires
        doc@.len() <= usize::MAX / 4,
    ensures
        ({
            let m = reference_model(doc@);
            match r {
                Ok(vd) => m == Ok::<GroupView, ErrView>(vd@),
                Err(er) => m is Err && er@ == m->Err_0,
            }
        }),
{
    proof {
        lemma_parallel_reference_equivalence(doc@);
    }
    let mut groups = match parse_obj_threaded(doc, 1) {
        Ok(gs) => gs,
        Err(er) => {
            return Err(er);
        },
    };
    let ghost gdv = groups.deep_view();
    let mut out = VertexData::new();
    proof {
        assert(gdv.take(0) =~= Seq::<GroupView>::empty());
        assert(flatten_groups(Seq::<GroupView>::empty()) == empty_group());
    }
    while groups.len() > 0
        invariant
            groups.deep_view() =~= gdv.skip(gdv.len() - groups@.len()),
            groups@.len() <= gdv.len(),
            out@ == flatten_groups(gdv.take(gdv.len() - groups@.len())),
        decreases groups@.len(),
    {
        let ghost k = gdv.len() - groups@.len();
        let ghost gb = groups@;
        let ghost dvb = groups.deep_view();
        let first = groups.remove(0);
        proof {
            assert(dvb[0] == gb[0].deep_view());
            assert(first@ == gdv[k]);
            assert forall|i: int| 0 <= i < groups@.len() implies groups.deep_view()[i] == dvb[i
                + 1] by {
                assert(groups@[i] == gb.remove(0)[i]);
                assert(gb.remove(0)[i] == gb[i + 1]);
                assert(dvb[i + 1] == gb[i + 1].deep_view());
            }
            assert(groups.deep_view() =~= gdv.skip(k + 1));
        }
        out.extend(first);
        proof {
            assert(gdv.take(k + 1).drop_last() =~= gdv.take(k as int));
            assert(gdv.take(k + 1).last() == gdv[k]);
            assert(flatten_groups(gdv.take(k + 1)) == crate::data::merge_groups(
                flatten_groups(gdv.take(k as int)),
                gdv[k],
            ));
        }
    }
    proof {
        assert(gdv.take(gdv.len() as int) =~= gdv);
    }
    Ok(out)
}

/// Parses a whole document with `n` workers.  The result equals
/// [`obj_model`], the sequential reading of the document, for every
/// `n >= 1`: group boundaries, intra-group vertex order and the reported
/// error do not depend on the worker count.
pub fn parse_obj_threaded(doc: &[u8], n: usize) -> (r: Result<Groups, ParseError>)
    requires
        1 <= n,
        doc@.len() <= usize::MAX / 4,
    ensures
        ({
            let m = obj_model(doc@);
            match r {
                Ok(gs) => m == Ok::<Seq<GroupView>, ErrView>(gs.deep_view()),
                Err(er) => m is Err && er@ == m->Err_0,
            }
        }),
{
    let ghost len = doc@.len() as int;
    proof {
        lemma_cat_spans_wf(doc@, 0, len, Category::Position);
        lemma_cat_spans_wf(doc@, 0, len, Category::Texcoord);
        lemma_cat_spans_wf(doc@, 0, len, Category::Normal);
        lemma_cat_spans_wf(doc@, 0, len, Category::IndexOrGroup);
        assert(4 * (usize::MAX / 4) <= usize::MAX);
    }
    let r = extract_vertices_and_indices(doc, n);
    let vd = match parse_vertex(doc, &r.position, &r.texcoord, &r.normal) {
        Ok(vd) => vd,
        Err(er) => {
            return Err(er);
        },
    };
    match parse_index(doc, &r.index, &vd) {
        Ok(gs) => Ok(gs),
        Err(er) => Err(er),
    }
}

} // verus!
