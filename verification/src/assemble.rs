//! Index/group assembler: turns face and group lines into drawable groups.
//!
//! Phase 2 of the pipeline.  Each worker walks its bucket of `f`/`g` line
//! spans in order, expanding every face into a fan of triangles whose
//! corners are resolved against the materialized attribute buffers, and
//! closing the current group at every `g` marker.  A worker knows nothing
//! of its neighbours: its first local group may continue the previous
//! worker's last one, and the sequential stitching step after all workers
//! finish merges exactly those boundaries.

use vstd::prelude::*;

use crate::chunk::spans_view;
use crate::data::{empty_group, merge_groups, ErrView, GroupView, ParseError, VertexData};
use crate::scalar::is_digit;
use crate::scan::{
    collect_tokens, find_token_end, find_token_start, lemma_skip_spaces, lemma_token_end,
    lemma_tokens_from_in, skip_spaces, token_end, tokens_from,
};

verus! {

/// One face corner's index references, 1-based as in the source grammar.
/// A missing texture or normal index is legal and leaves the corner's
/// attribute stream untouched.
#[derive(Clone, Copy, Debug, PartialEq, Eq)]
pub struct Index {
    pub position: Option<usize>,
    pub texcoord: Option<usize>,
    pub normal: Option<usize>,
}

/// One face line: its corners in source order.
#[derive(Clone, Debug, PartialEq)]
pub struct Face {
    pub indices: Vec<Index>,
}

/// Why one face corner is rejected.
#[derive(Clone, Copy, Debug, PartialEq, Eq, Structural)]
pub enum CornerFail {
    /// The corner token does not match `digits[/digits?[/digits?]]`.
    Malformed,
    /// An index is zero or exceeds the materialized attribute count.
    Oor,
}

/// End of the run of decimal digits starting at `i`, capped at `e`.
pub open spec fn digit_run_end(doc: Seq<u8>, i: int, e: int) -> int
    decreases e - i,
{
    if i < e && is_digit(doc[i]) {
        digit_run_end(doc, i + 1, e)
    } else {
        i
    }
}

/// The integer denoted by the digits `doc[a..b)`.
pub open spec fn digits_val(doc: Seq<u8>, a: int, b: int) -> nat
    decreases b - a,
{
    if a < b {
        (digits_val(doc, a, b - 1) * 10 + (doc[b - 1] - 48)) as nat
    } else {
        0
    }
}

pub proof fn lemma_digit_run_end(doc: Seq<u8>, i: int, e: int)
    requires
        i <= e,
    ensures
        i <= digit_run_end(doc, i, e) <= e,
    decreases e - i,
{
    if i < e && is_digit(doc[i]) {
        lemma_digit_run_end(doc, i + 1, e);
    }
}

/// The index triple denoted by the corner token `doc[a..b)`:
/// `position[/texcoord?[/normal?]]`, each index a run of digits, or `None`
/// if the token has any other shape.
pub open spec fn corner_of(doc: Seq<u8>, a: int, b: int) -> Option<(nat, Option<nat>, Option<nat>)> {
    let e0 = digit_run_end(doc, a, b);
    if e0 == a {
        None
    } else {
        let p = digits_val(doc, a, e0);
        if e0 == b {
            Some((p, None, None))
        } else if doc[e0] != 47 {
            None
        } else {
            let e1 = digit_run_end(doc, e0 + 1, b);
            let tv: Option<nat> = if e1 == e0 + 1 {
                None
            } else {
                Some(digits_val(doc, e0 + 1, e1))
            };
            if e1 == b {
                Some((p, tv, None))
            } else if doc[e1] != 47 {
                None
            } else {
                let e2 = digit_run_end(doc, e1 + 1, b);
                if e2 != b {
                    None
                } else {
                    let nv: Option<nat> = if e2 == e1 + 1 {
                        None
                    } else {
                        Some(digits_val(doc, e1 + 1, e2))
                    };
                    Some((p, tv, nv))
                }
            }
        }
    }
}

/// Appends the resolved attributes of one corner to the group `g`, reading
/// them from the materialized buffers `attrs`; or reports why the corner
/// is rejected.  Indices are 1-based, checked in position/texcoord/normal
/// order, and resolved by subtracting one.
pub open spec fn corner_effect(
    doc: Seq<u8>,
    a: int,
    b: int,
    attrs: GroupView,
    g: GroupView,
) -> Result<GroupView, CornerFail> {
    match corner_of(doc, a, b) {
        None => Err(CornerFail::Malformed),
        Some(pt) => {
            let (p, tv, nv) = pt;
            if !(1 <= p && 3 * p <= attrs.position.len()) {
                Err(CornerFail::Oor)
            } else {
                let tex_ok = match tv {
                    Some(t) => 1 <= t && 2 * t <= attrs.texcoord.len(),
                    None => true,
                };
                let nrm_ok = match nv {
                    Some(t) => 1 <= t && 3 * t <= attrs.normal.len(),
                    None => true,
                };
                if !tex_ok {
                    Err(CornerFail::Oor)
                } else if !nrm_ok {
                    Err(CornerFail::Oor)
                } else {
                    Ok(
                        GroupView {
                            position: g.position + attrs.position.subrange(
                                3 * (p - 1),
                                3 * p as int,
                            ),
                            texcoord: match tv {
                                Some(t) => g.texcoord + attrs.texcoord.subrange(
                                    2 * (t - 1),
                                    2 * t as int,
                                ),
                                None => g.texcoord,
                            },
                            normal: match nv {
                                Some(t) => g.normal + attrs.normal.subrange(
                                    3 * (t - 1),
                                    3 * t as int,
                                ),
                                None => g.normal,
                            },
                        },
                    )
                }
            }
        },
    }
}

/// `ix` is the machine-word image of the index triple denoted by the
/// corner token `doc[a..b)`.
pub open spec fn index_matches(ix: Index, doc: Seq<u8>, a: int, b: int) -> bool {
    match corner_of(doc, a, b) {
        None => false,
        Some(pt) => {
            let (p, tv, nv) = pt;
            &&& p <= usize::MAX
            &&& ix.position == Some(p as usize)
            &&& match (ix.texcoord, tv) {
                (Some(t), Some(tn)) => tn <= usize::MAX && t == tn as usize,
                (None, None) => true,
                _ => false,
            }
            &&& match (ix.normal, nv) {
                (Some(t), Some(tn)) => tn <= usize::MAX && t == tn as usize,
                (None, None) => true,
                _ => false,
            }
        },
    }
}

/// A corner token that no machine-word index triple can represent: it is
/// not of the corner shape, or holds an index beyond the address space.
pub open spec fn corner_unrepresentable(doc: Seq<u8>, a: int, b: int) -> bool {
    match corner_of(doc, a, b) {
        None => true,
        Some(pt) => {
            let (p, tv, nv) = pt;
            ||| p > usize::MAX
            ||| (tv is Some && tv->0 > usize::MAX)
            ||| (nv is Some && nv->0 > usize::MAX)
        },
    }
}

impl Index {
    /// Parses the corner token `doc[a..b)` into its 1-based index triple.
    pub fn new(doc: &[u8], a: usize, b: usize) -> (r: Option<Index>)
        requires
            a <= b <= doc@.len(),
        ensures
            match r {
                Some(ix) => index_matches(ix, doc@, a as int, b as int),
                None => corner_unrepresentable(doc@, a as int, b as int),
            },
    {
        let (v0, huge0, e0) = scan_field(doc, a, b);
        if e0 == a {
            return None;
        }
        if huge0 || v0 > usize::MAX as u64 {
            return None;
        }
        let mut ix = Index { position: Some(v0 as usize), texcoord: None, normal: None };
        if e0 == b {
            return Some(ix);
        }
        if doc[e0] != 47 {
            return None;
        }
        let (v1, huge1, e1) = scan_field(doc, e0 + 1, b);
        if e1 > e0 + 1 {
            if huge1 || v1 > usize::MAX as u64 {
                return None;
            }
            ix.texcoord = Some(v1 as usize);
        }
        if e1 == b {
            return Some(ix);
        }
        if doc[e1] != 47 {
            return None;
        }
        let (v2, huge2, e2) = scan_field(doc, e1 + 1, b);
        if e2 != b {
            return None;
        }
        if e2 > e1 + 1 {
            if huge2 || v2 > usize::MAX as u64 {
                return None;
            }
            ix.normal = Some(v2 as usize);
        }
        Some(ix)
    }
}

impl Face {
    /// Parses the corner tokens of the face line `doc[s..e)`, after its
    /// keyword, into their index triples.  `None` when some corner cannot
    /// be represented.
    pub fn new(doc: &[u8], s: usize, e: usize) -> (r: Option<Face>)
        requires
            s <= e <= doc@.len(),
        ensures
            ({
                let a = skip_spaces(doc@, s as int, e as int);
                let kw_end = token_end(doc@, a, e as int);
                let corners = tokens_from(doc@, kw_end, e as int);
                match r {
                    Some(f) => {
                        &&& f.indices@.len() == corners.len()
                        &&& forall|k: int|
                            0 <= k < corners.len() ==> index_matches(
                                #[trigger] f.indices@[k],
                                doc@,
                                corners[k].0,
                                corners[k].1,
                            )
                    },
                    None => exists|k: int|
                        0 <= k < corners.len() && corner_unrepresentable(
                            doc@,
                            (#[trigger] corners[k]).0,
                            corners[k].1,
                        ),
                }
            }),
    {
        let a = find_token_start(doc, s, e);
        let kw_end = find_token_end(doc, a, e);
        let corners = collect_tokens(doc, kw_end, e);
        let ghost cv = tokens_from(doc@, kw_end as int, e as int);
        proof {
            lemma_tokens_from_in(doc@, kw_end as int, e as int);
        }
        let mut indices: Vec<Index> = Vec::new();
        let mut k: usize = 0;
        while k < corners.len()
            invariant
                k <= corners@.len(),
                s <= e <= doc@.len(),
                cv == tokens_from(
                    doc@,
                    token_end(doc@, skip_spaces(doc@, s as int, e as int), e as int),
                    e as int,
                ),
                spans_view(corners@) == cv,
                forall|t: int| 0 <= t < cv.len() ==> 0 <= (#[trigger] cv[t]).0 < cv[t].1 <= e,
                indices@.len() == k,
                forall|t: int|
                    0 <= t < k ==> index_matches(
                        #[trigger] indices@[t],
                        doc@,
                        cv[t].0,
                        cv[t].1,
                    ),
            decreases corners@.len() - k,
        {
            let (ca, cb) = corners[k];
            proof {
                assert(cv[k as int] == (ca as int, cb as int));
            }
            match Index::new(doc, ca, cb) {
                Some(ix) => {
                    indices.push(ix);
                },
                None => {
                    proof {
                        assert(0 <= k < cv.len() && corner_unrepresentable(
                            doc@,
                            cv[k as int].0,
                            cv[k as int].1,
                        ));
                    }
                    return None;
                },
            }
            k = k + 1;
        }
        Some(Face { indices })
    }
}

/// Scans the run of digits at `from`, returning `(value, huge, end)`.
/// `huge` is set when the denoted integer exceeds `u64::MAX`; the exact
/// value is returned otherwise.
fn scan_field(doc: &[u8], from: usize, e: usize) -> (r: (u64, bool, usize))
    requires
        from <= e <= doc@.len(),
    ensures
        r.2 == digit_run_end(doc@, from as int, e as int),
        from <= r.2 <= e,
        !r.1 ==> r.0 as nat == digits_val(doc@, from as int, r.2 as int),
        r.1 ==> digits_val(doc@, from as int, r.2 as int) > u64::MAX,
{
    let mut j = from;
    let mut v: u64 = 0;
    let mut huge = false;
    while j < e && 48 <= doc[j] && doc[j] <= 57
        invariant
            from <= j <= e,
            e <= doc@.len(),
            digit_run_end(doc@, from as int, e as int) == digit_run_end(doc@, j as int, e as int),
            !huge ==> v as nat == digits_val(doc@, from as int, j as int),
            huge ==> digits_val(doc@, from as int, j as int) > u64::MAX,
        decreases e - j,
    {
        let d = doc[j] - 48;
        proof {
            assert(digits_val(doc@, from as int, j as int + 1) == (digits_val(
                doc@,
                from as int,
                j as int,
            ) * 10 + d) as nat);
        }
        if huge {
            proof {
                let old_val = digits_val(doc@, from as int, j as int);
                assert(old_val * 10 >= old_val) by (nonlinear_arith)
                    requires
                        old_val >= 0,
                ;
            }
        } else if v > 1844674407370955161 || (v == 1844674407370955161 && d > 5) {
            // v * 10 + d exceeds u64::MAX == 18446744073709551615 exactly
            // beyond this boundary.
            huge = true;
        } else {
            v = v * 10 + d as u64;
        }
        j = j + 1;
    }
    proof {
        lemma_digit_run_end(doc@, j as int, e as int);
    }
    (v, huge, j)
}

/// Resolves one corner token `doc[a..b)` against the attribute buffers
/// `src` and appends the referenced attributes to `dst`, exactly as
/// [`corner_effect`] says.  Every check precedes every write, so a
/// rejected corner leaves `dst` untouched.
pub fn add_vertex(
    doc: &[u8],
    a: usize,
    b: usize,
    src: &VertexData,
    dst: &mut VertexData,
) -> (r: Result<(), CornerFail>)
    requires
        a <= b <= doc@.len(),
    ensures
        match r {
            Ok(()) => corner_effect(doc@, a as int, b as int, src@, old(dst)@) == Ok::<
                GroupView,
                CornerFail,
            >(final(dst)@),
            Err(f) => {
                &&& corner_effect(doc@, a as int, b as int, src@, old(dst)@) == Err::<
                    GroupView,
                    CornerFail,
                >(f)
                &&& final(dst)@ == old(dst)@
            },
        },
{
    let (v0, huge0, e0) = scan_field(doc, a, b);
    if e0 == a {
        return Err(CornerFail::Malformed);
    }
    // Parse the remaining fields before any range check, so a malformed
    // token is always reported as malformed.
    let mut tex: Option<(u64, bool)> = None;
    let mut nrm: Option<(u64, bool)> = None;
    if e0 < b {
        if doc[e0] != 47 {
            return Err(CornerFail::Malformed);
        }
        let (v1, huge1, e1) = scan_field(doc, e0 + 1, b);
        if e1 > e0 + 1 {
            tex = Some((v1, huge1));
        }
        if e1 < b {
            if doc[e1] != 47 {
                return Err(CornerFail::Malformed);
            }
            let (v2, huge2, e2) = scan_field(doc, e1 + 1, b);
            if e2 != b {
                return Err(CornerFail::Malformed);
            }
            if e2 > e1 + 1 {
                nrm = Some((v2, huge2));
            }
        }
    }
    let ghost cw = corner_of(doc@, a as int, b as int);
    proof {
        assert(cw is Some);
    }
    // All three range checks, in position/texcoord/normal order, before
    // any write.
    let plen = src.position.len();
    if huge0 || v0 == 0 || v0 > (plen / 3) as u64 {
        proof {
            lemma_index_check(cw->Some_0.0, huge0, v0 as nat, src@.position.len() as int, 3);
        }
        return Err(CornerFail::Oor);
    }
    proof {
        lemma_index_check(cw->Some_0.0, huge0, v0 as nat, src@.position.len() as int, 3);
    }
    match tex {
        Some((v1, huge1)) => {
            let tlen = src.texcoord.len();
            if huge1 || v1 == 0 || v1 > (tlen / 2) as u64 {
                proof {
                    lemma_index_check(
                        cw->Some_0.1->Some_0,
                        huge1,
                        v1 as nat,
                        src@.texcoord.len() as int,
                        2,
                    );
                }
                return Err(CornerFail::Oor);
            }
            proof {
                lemma_index_check(
                    cw->Some_0.1->Some_0,
                    huge1,
                    v1 as nat,
                    src@.texcoord.len() as int,
                    2,
                );
            }
        },
        None => {},
    }
    match nrm {
        Some((v2, huge2)) => {
            let nlen = src.normal.len();
            if huge2 || v2 == 0 || v2 > (nlen / 3) as u64 {
                proof {
                    lemma_index_check(
                        cw->Some_0.2->Some_0,
                        huge2,
                        v2 as nat,
                        src@.normal.len() as int,
                        3,
                    );
                }
                return Err(CornerFail::Oor);
            }
            proof {
                lemma_index_check(
                    cw->Some_0.2->Some_0,
                    huge2,
                    v2 as nat,
                    src@.normal.len() as int,
                    3,
                );
            }
        },
        None => {},
    }
    // Every index is in range: append the corner's attributes.
    let pu = (v0 as usize) - 1;
    let ghost dst0 = dst@;
    dst.position.push(src.position[pu * 3]);
    dst.position.push(src.position[pu * 3 + 1]);
    dst.position.push(src.position[pu * 3 + 2]);
    proof {
        let p = cw->Some_0.0;
        assert(dst@.position =~= dst0.position + src@.position.subrange(3 * (p - 1), 3 * p as int));
        assert(dst@.texcoord == dst0.texcoord);
        assert(dst@.normal == dst0.normal);
    }
    match tex {
        Some((v1, _)) => {
            let tu = (v1 as usize) - 1;
            let ghost dst1 = dst@;
            dst.texcoord.push(src.texcoord[tu * 2]);
            dst.texcoord.push(src.texcoord[tu * 2 + 1]);
            proof {
                let t = cw->Some_0.1->Some_0;
                assert(dst@.texcoord =~= dst1.texcoord + src@.texcoord.subrange(
                    2 * (t - 1),
                    2 * t as int,
                ));
                assert(dst@.position == dst1.position);
                assert(dst@.normal == dst1.normal);
            }
        },
        None => {},
    }
    match nrm {
        Some((v2, _)) => {
            let nu = (v2 as usize) - 1;
            let ghost dst2 = dst@;
            dst.normal.push(src.normal[nu * 3]);
            dst.normal.push(src.normal[nu * 3 + 1]);
            dst.normal.push(src.normal[nu * 3 + 2]);
            proof {
                let t = cw->Some_0.2->Some_0;
                assert(dst@.normal =~= dst2.normal + src@.normal.subrange(
                    3 * (t - 1),
                    3 * t as int,
                ));
                assert(dst@.position == dst2.position);
                assert(dst@.texcoord == dst2.texcoord);
            }
        },
        None => {},
    }
    Ok(())
}

/// The executable index check `huge || v == 0 || v > len / c` decides
/// exactly the specification's `1 <= p && c * p <= len`.
proof fn lemma_index_check(p: nat, huge: bool, v: nat, len: int, c: int)
    requires
        0 <= len <= usize::MAX,
        2 <= c <= 3,
        !huge ==> v == p,
        huge ==> p > u64::MAX,
        usize::MAX <= u64::MAX,
    ensures
        (huge || v == 0 || v > len / c) <==> !(1 <= p && c * p <= len),
{
    vstd::arithmetic::div_mod::lemma_fundamental_div_mod(len, c);
    let q = len / c;
    if huge {
        assert(c * p >= p) by (nonlinear_arith)
            requires
                c >= 1,
                p >= 0,
        ;
        assert(c * p > len);
    } else {
        if v == 0 {
        } else if v > q {
            assert(c * p >= c * (q + 1)) by (nonlinear_arith)
                requires
                    p >= q + 1,
                    c >= 0,
            ;
            assert(c * (q + 1) == c * q + c) by (nonlinear_arith);
            assert(c * p > len);
        } else {
            assert(c * p <= c * q) by (nonlinear_arith)
                requires
                    p <= q,
                    c >= 0,
            ;
        }
    }
}

/// Expands the corner list of one face as a triangle fan anchored at the
/// first corner — triangles `(0, 1, 2), (0, 2, 3), ...` — appending each
/// resolved corner to `g` in order, starting with the triangle that ends
/// at corner `j`.
pub open spec fn fan_fold(
    doc: Seq<u8>,
    corners: Seq<(int, int)>,
    attrs: GroupView,
    g: GroupView,
    j: int,
) -> Result<GroupView, CornerFail>
    decreases corners.len() - j,
{
    if j < 2 || j >= corners.len() {
        Ok(g)
    } else {
        match corner_effect(doc, corners[0].0, corners[0].1, attrs, g) {
            Ok(g1) => match corner_effect(doc, corners[j - 1].0, corners[j - 1].1, attrs, g1) {
                Ok(g2) => match corner_effect(doc, corners[j].0, corners[j].1, attrs, g2) {
                    Ok(g3) => fan_fold(doc, corners, attrs, g3, j + 1),
                    Err(f) => Err(f),
                },
                Err(f) => Err(f),
            },
            Err(f) => Err(f),
        }
    }
}

/// What one face line does to the current group: its corner tokens are
/// read after the keyword, a face with fewer than three corners is
/// rejected, and the fan's corners are appended in order.
pub open spec fn face_effect(
    doc: Seq<u8>,
    s: int,
    e: int,
    attrs: GroupView,
    g: GroupView,
) -> Result<GroupView, ErrView> {
    let a = skip_spaces(doc, s, e);
    let kw_end = token_end(doc, a, e);
    let corners = tokens_from(doc, kw_end, e);
    if corners.len() < 3 {
        Err(ErrView::MissingToken(s, e))
    } else {
        match fan_fold(doc, corners, attrs, g, 2) {
            Ok(g2) => Ok(g2),
            Err(CornerFail::Malformed) => Err(ErrView::MalformedNumber(s, e)),
            Err(CornerFail::Oor) => Err(ErrView::IndexOutOfRange(s, e)),
        }
    }
}

/// Parses the face line `doc[s..e)` and appends its fan of resolved
/// corners to `group`, exactly as [`face_effect`] says.  On an error
/// `group` may hold a partial fan; the caller abandons it.
#[verifier::rlimit(60)]
pub fn face(
    doc: &[u8],
    s: usize,
    e: usize,
    src: &VertexData,
    group: &mut VertexData,
) -> (r: Result<(), ParseError>)
    requires
        s <= e <= doc@.len(),
    ensures
        match r {
            Ok(()) => face_effect(doc@, s as int, e as int, src@, old(group)@) == Ok::<
                GroupView,
                ErrView,
            >(final(group)@),
            Err(er) => {
                &&& face_effect(doc@, s as int, e as int, src@, old(group)@) is Err
                &&& er@ == face_effect(doc@, s as int, e as int, src@, old(group)@)->Err_0
            },
        },
{
    let a = find_token_start(doc, s, e);
    let kw_end = find_token_end(doc, a, e);
    let corners = collect_tokens(doc, kw_end, e);
    let ghost cv = tokens_from(doc@, kw_end as int, e as int);
    proof {
        lemma_tokens_from_in(doc@, kw_end as int, e as int);
    }
    if corners.len() < 3 {
        return Err(ParseError::MissingToken(s, e));
    }
    let mut j: usize = 2;
    while j < corners.len()
        invariant
            2 <= j <= corners@.len(),
            3 <= corners@.len(),
            s <= e <= doc@.len(),
            kw_end <= e,
            kw_end as int == token_end(doc@, skip_spaces(doc@, s as int, e as int), e as int),
            cv == tokens_from(doc@, kw_end as int, e as int),
            spans_view(corners@) == cv,
            forall|k: int| 0 <= k < cv.len() ==> kw_end <= (#[trigger] cv[k]).0 < cv[k].1 <= e,
            fan_fold(doc@, cv, src@, group@, j as int) == fan_fold(
                doc@,
                cv,
                src@,
                old(group)@,
                2,
            ),
        decreases corners@.len() - j,
    {
        let ghost g_start = group@;
        let ghost fj = fan_fold(doc@, cv, src@, g_start, j as int);
        let (c0a, c0b) = corners[0];
        proof {
            assert(cv[0] == (c0a as int, c0b as int));
        }
        match add_vertex(doc, c0a, c0b, src, group) {
            Err(f) => {
                proof {
                    assert(fj == Err::<GroupView, CornerFail>(f));
                }
                return Err(corner_fail_to_error(f, s, e));
            },
            Ok(()) => {},
        }
        let ghost g1 = group@;
        let (c1a, c1b) = corners[j - 1];
        proof {
            assert(cv[j - 1] == (c1a as int, c1b as int));
            assert(corner_effect(doc@, cv[0].0, cv[0].1, src@, g_start) == Ok::<
                GroupView,
                CornerFail,
            >(g1));
        }
        match add_vertex(doc, c1a, c1b, src, group) {
            Err(f) => {
                proof {
                    assert(fj == Err::<GroupView, CornerFail>(f));
                }
                return Err(corner_fail_to_error(f, s, e));
            },
            Ok(()) => {},
        }
        let ghost g2 = group@;
        let (c2a, c2b) = corners[j];
        proof {
            assert(cv[j as int] == (c2a as int, c2b as int));
            assert(corner_effect(doc@, cv[j - 1].0, cv[j - 1].1, src@, g1) == Ok::<
                GroupView,
                CornerFail,
            >(g2));
        }
        match add_vertex(doc, c2a, c2b, src, group) {
            Err(f) => {
                proof {
                    assert(fj == Err::<GroupView, CornerFail>(f));
                }
                return Err(corner_fail_to_error(f, s, e));
            },
            Ok(()) => {},
        }
        proof {
            assert(corner_effect(doc@, cv[j as int].0, cv[j as int].1, src@, g2) == Ok::<
                GroupView,
                CornerFail,
            >(group@));
            assert(fj == fan_fold(doc@, cv, src@, group@, j + 1));
        }
        j = j + 1;
    }
    Ok(())
}

/// Maps a corner failure to the pipeline error of the line `[s, e)`.
fn corner_fail_to_error(f: CornerFail, s: usize, e: usize) -> (r: ParseError)
    ensures
        r@ == match f {
            CornerFail::Malformed => ErrView::MalformedNumber(s as int, e as int),
            CornerFail::Oor => ErrView::IndexOutOfRange(s as int, e as int),
        },
{
    match f {
        CornerFail::Malformed => ParseError::MalformedNumber(s, e),
        CornerFail::Oor => ParseError::IndexOutOfRange(s, e),
    }
}

/// What one index line does to the group list: a `g` marker closes the
/// current group and opens a new empty one, a face line appends its fan to
/// the current group.
pub open spec fn line_effect(
    doc: Seq<u8>,
    s: int,
    e: int,
    attrs: GroupView,
    acc: Seq<GroupView>,
) -> Result<Seq<GroupView>, ErrView> {
    let a = skip_spaces(doc, s, e);
    if acc.len() == 0 || a >= e {
        Ok(acc)
    } else if doc[a] == 103 {
        Ok(acc.push(empty_group()))
    } else {
        match face_effect(doc, s, e, attrs, acc.last()) {
            Ok(g2) => Ok(acc.update(acc.len() - 1, g2)),
            Err(e2) => Err(e2),
        }
    }
}

/// Folds [`line_effect`] over a list of index-line spans, in document
/// order, aborting at the first failing line.
pub open spec fn assemble_spans(
    doc: Seq<u8>,
    spans: Seq<(int, int)>,
    attrs: GroupView,
    acc: Seq<GroupView>,
) -> Result<Seq<GroupView>, ErrView>
    decreases spans.len(),
{
    if spans.len() == 0 {
        Ok(acc)
    } else {
        match line_effect(doc, spans[0].0, spans[0].1, attrs, acc) {
            Ok(acc2) => assemble_spans(doc, spans.drop_first(), attrs, acc2),
            Err(e2) => Err(e2),
        }
    }
}

/// Concatenates a later worker's local group list onto the global one:
/// the local list's first group continues the global list's last group,
/// and the rest are new groups.
pub open spec fn stitch(g: Seq<GroupView>, l: Seq<GroupView>) -> Seq<GroupView> {
    if g.len() == 0 {
        l
    } else if l.len() == 0 {
        g
    } else {
        g.drop_last().push(merge_groups(g.last(), l[0])) + l.skip(1)
    }
}

/// The number of group-marker lines among the index-line spans.
pub open spec fn marker_count(doc: Seq<u8>, spans: Seq<(int, int)>) -> int
    decreases spans.len(),
{
    if spans.len() == 0 {
        0
    } else {
        let s = spans[0].0;
        let e = spans[0].1;
        let a = skip_spaces(doc, s, e);
        (if a < e && doc[a] == 103 {
            1int
        } else {
            0int
        }) + marker_count(doc, spans.drop_first())
    }
}

/// A successful assembly yields exactly one group per marker line on top
/// of the groups it started with: markers alone decide group boundaries.
pub proof fn lemma_assemble_group_count(
    doc: Seq<u8>,
    spans: Seq<(int, int)>,
    attrs: GroupView,
    acc: Seq<GroupView>,
)
    requires
        acc.len() >= 1,
    ensures
        assemble_spans(doc, spans, attrs, acc) is Ok ==> assemble_spans(
            doc,
            spans,
            attrs,
            acc,
        )->Ok_0.len() == acc.len() + marker_count(doc, spans),
    decreases spans.len(),
{
    if spans.len() > 0 {
        match line_effect(doc, spans[0].0, spans[0].1, attrs, acc) {
            Ok(acc2) => {
                lemma_assemble_group_count(doc, spans.drop_first(), attrs, acc2);
            },
            Err(_) => {},
        }
    }
}

/// Assembling never drops a group: the list only grows.
pub proof fn lemma_assemble_len(doc: Seq<u8>, spans: Seq<(int, int)>, attrs: GroupView, acc: Seq<GroupView>)
    ensures
        assemble_spans(doc, spans, attrs, acc) is Ok ==> assemble_spans(
            doc,
            spans,
            attrs,
            acc,
        )->Ok_0.len() >= acc.len(),
    decreases spans.len(),
{
    if spans.len() > 0 {
        match line_effect(doc, spans[0].0, spans[0].1, attrs, acc) {
            Ok(acc2) => {
                lemma_assemble_len(doc, spans.drop_first(), attrs, acc2);
            },
            Err(_) => {},
        }
    }
}

/// Assembling a concatenation of span lists threads the group list through
/// the parts in order.
pub proof fn lemma_assemble_concat(
    doc: Seq<u8>,
    s1: Seq<(int, int)>,
    s2: Seq<(int, int)>,
    attrs: GroupView,
    acc: Seq<GroupView>,
)
    ensures
        assemble_spans(doc, s1 + s2, attrs, acc) == match assemble_spans(doc, s1, attrs, acc) {
            Ok(m) => assemble_spans(doc, s2, attrs, m),
            Err(e2) => Err(e2),
        },
    decreases s1.len(),
{
    if s1.len() == 0 {
        assert(s1 + s2 =~= s2);
    } else {
        assert((s1 + s2)[0] == s1[0]);
        assert((s1 + s2).drop_first() =~= s1.drop_first() + s2);
        match line_effect(doc, s1[0].0, s1[0].1, attrs, acc) {
            Ok(acc2) => {
                lemma_assemble_concat(doc, s1.drop_first(), s2, attrs, acc2);
            },
            Err(_) => {},
        }
    }
}

/// Groups before the last are inert: assembling on top of `front + acc`
/// only reads and rewrites `acc`'s part.
pub proof fn lemma_assemble_front(
    doc: Seq<u8>,
    spans: Seq<(int, int)>,
    attrs: GroupView,
    front: Seq<GroupView>,
    acc: Seq<GroupView>,
)
    requires
        acc.len() >= 1,
    ensures
        assemble_spans(doc, spans, attrs, front + acc) == match assemble_spans(
            doc,
            spans,
            attrs,
            acc,
        ) {
            Ok(l) => Ok(front + l),
            Err(e2) => Err(e2),
        },
    decreases spans.len(),
{
    if spans.len() > 0 {
        let s = spans[0].0;
        let e = spans[0].1;
        let a = skip_spaces(doc, s, e);
        let whole = front + acc;
        assert(whole.len() >= 1);
        assert(whole.last() == acc.last());
        if a >= e {
            lemma_assemble_front(doc, spans.drop_first(), attrs, front, acc);
        } else if doc[a] == 103 {
            assert(whole.push(empty_group()) =~= front + acc.push(empty_group()));
            lemma_assemble_front(doc, spans.drop_first(), attrs, front, acc.push(empty_group()));
        } else {
            match face_effect(doc, s, e, attrs, acc.last()) {
                Ok(g2) => {
                    assert(whole.update(whole.len() - 1, g2) =~= front + acc.update(
                        acc.len() - 1,
                        g2,
                    ));
                    lemma_assemble_front(
                        doc,
                        spans.drop_first(),
                        attrs,
                        front,
                        acc.update(acc.len() - 1, g2),
                    );
                },
                Err(_) => {},
            }
        }
    }
}

/// Appending a corner to a group that already holds `g` is appending it to
/// the tail alone.
proof fn lemma_corner_merge(
    doc: Seq<u8>,
    a: int,
    b: int,
    attrs: GroupView,
    g: GroupView,
    h: GroupView,
)
    ensures
        corner_effect(doc, a, b, attrs, merge_groups(g, h)) == match corner_effect(
            doc,
            a,
            b,
            attrs,
            h,
        ) {
            Ok(x) => Ok(merge_groups(g, x)),
            Err(f) => Err(f),
        },
{
    match corner_effect(doc, a, b, attrs, h) {
        Ok(x) => {
            let m = merge_groups(g, h);
            match corner_effect(doc, a, b, attrs, m) {
                Ok(y) => {
                    assert(y.position =~= merge_groups(g, x).position);
                    assert(y.texcoord =~= merge_groups(g, x).texcoord);
                    assert(y.normal =~= merge_groups(g, x).normal);
                    assert(y == merge_groups(g, x));
                },
                Err(_) => {
                    assert(false);
                },
            }
        },
        Err(_) => {},
    }
}

/// The whole fan appends on top of `g` exactly what it appends from
/// scratch.
proof fn lemma_fan_merge(
    doc: Seq<u8>,
    corners: Seq<(int, int)>,
    attrs: GroupView,
    g: GroupView,
    h: GroupView,
    j: int,
)
    ensures
        fan_fold(doc, corners, attrs, merge_groups(g, h), j) == match fan_fold(
            doc,
            corners,
            attrs,
            h,
            j,
        ) {
            Ok(x) => Ok(merge_groups(g, x)),
            Err(f) => Err(f),
        },
    decreases corners.len() - j,
{
    if 2 <= j < corners.len() {
        lemma_corner_merge(doc, corners[0].0, corners[0].1, attrs, g, h);
        match corner_effect(doc, corners[0].0, corners[0].1, attrs, h) {
            Ok(h1) => {
                lemma_corner_merge(doc, corners[j - 1].0, corners[j - 1].1, attrs, g, h1);
                match corner_effect(doc, corners[j - 1].0, corners[j - 1].1, attrs, h1) {
                    Ok(h2) => {
                        lemma_corner_merge(doc, corners[j].0, corners[j].1, attrs, g, h2);
                        match corner_effect(doc, corners[j].0, corners[j].1, attrs, h2) {
                            Ok(h3) => {
                                lemma_fan_merge(doc, corners, attrs, g, h3, j + 1);
                            },
                            Err(_) => {},
                        }
                    },
                    Err(_) => {},
                }
            },
            Err(_) => {},
        }
    }
}

/// A face line appends on top of `g` exactly what it appends from scratch.
pub proof fn lemma_face_merge(
    doc: Seq<u8>,
    s: int,
    e: int,
    attrs: GroupView,
    g: GroupView,
    h: GroupView,
)
    ensures
        face_effect(doc, s, e, attrs, merge_groups(g, h)) == match face_effect(
            doc,
            s,
            e,
            attrs,
            h,
        ) {
            Ok(x) => Ok(merge_groups(g, x)),
            Err(e2) => Err(e2),
        },
{
    let a = skip_spaces(doc, s, e);
    let kw_end = token_end(doc, a, e);
    let corners = tokens_from(doc, kw_end, e);
    if corners.len() >= 3 {
        lemma_fan_merge(doc, corners, attrs, g, h, 2);
    }
}

/// A group already holding content behaves like an empty group whose
/// output is later merged onto that content.
pub proof fn lemma_assemble_seeded(
    doc: Seq<u8>,
    spans: Seq<(int, int)>,
    attrs: GroupView,
    g: GroupView,
    h: GroupView,
)
    ensures
        assemble_spans(doc, spans, attrs, seq![merge_groups(g, h)]) == match assemble_spans(
            doc,
            spans,
            attrs,
            seq![h],
        ) {
            Ok(l) => Ok(seq![merge_groups(g, l[0])] + l.skip(1)),
            Err(e2) => Err(e2),
        },
    decreases spans.len(),
{
    lemma_assemble_len(doc, spans, attrs, seq![h]);
    if spans.len() == 0 {
        assert(seq![merge_groups(g, h)] =~= seq![merge_groups(g, seq![h][0])] + seq![h].skip(1));
    } else {
        let s = spans[0].0;
        let e = spans[0].1;
        let a = skip_spaces(doc, s, e);
        let rest = spans.drop_first();
        if a >= e {
            lemma_assemble_seeded(doc, rest, attrs, g, h);
        } else if doc[a] == 103 {
            // Both sides close the current group and open a new one; the
            // closed group is now inert on both sides.
            assert(seq![merge_groups(g, h)].push(empty_group()) =~= seq![merge_groups(g, h)]
                + seq![empty_group()]);
            assert(seq![h].push(empty_group()) =~= seq![h] + seq![empty_group()]);
            lemma_assemble_front(
                doc,
                rest,
                attrs,
                seq![merge_groups(g, h)],
                seq![empty_group()],
            );
            lemma_assemble_front(doc, rest, attrs, seq![h], seq![empty_group()]);
            match assemble_spans(doc, rest, attrs, seq![empty_group()]) {
                Ok(l2) => {
                    assert(seq![merge_groups(g, h)] + l2 =~= seq![merge_groups(
                        g,
                        (seq![h] + l2)[0],
                    )] + (seq![h] + l2).skip(1)) by {
                        assert((seq![h] + l2)[0] == h);
                        assert((seq![h] + l2).skip(1) =~= l2);
                        assert(merge_groups(g, h) == merge_groups(g, (seq![h] + l2)[0]));
                    }
                },
                Err(_) => {},
            }
        } else {
            lemma_face_merge(doc, s, e, attrs, g, h);
            match face_effect(doc, s, e, attrs, h) {
                Ok(h2) => {
                    assert(seq![merge_groups(g, h)].update(0, merge_groups(g, h2))
                        =~= seq![merge_groups(g, h2)]);
                    assert(seq![h].update(0, h2) =~= seq![h2]);
                    lemma_assemble_seeded(doc, rest, attrs, g, h2);
                },
                Err(_) => {},
            }
        }
    }
}

/// The stitching theorem: running a bucket on top of an existing group
/// list is the same as running it from scratch and stitching its local
/// list on afterwards.
pub proof fn lemma_assemble_stitch(
    doc: Seq<u8>,
    spans: Seq<(int, int)>,
    attrs: GroupView,
    acc: Seq<GroupView>,
)
    requires
        acc.len() >= 1,
    ensures
        assemble_spans(doc, spans, attrs, acc) == match assemble_spans(
            doc,
            spans,
            attrs,
            seq![empty_group()],
        ) {
            Ok(l) => Ok(stitch(acc, l)),
            Err(e2) => Err(e2),
        },
{
    let front = acc.drop_last();
    let lastg = acc.last();
    assert(acc =~= front + seq![lastg]);
    lemma_assemble_front(doc, spans, attrs, front, seq![lastg]);
    assert(merge_groups(lastg, empty_group()) == lastg) by {
        assert(merge_groups(lastg, empty_group()).position =~= lastg.position);
        assert(merge_groups(lastg, empty_group()).texcoord =~= lastg.texcoord);
        assert(merge_groups(lastg, empty_group()).normal =~= lastg.normal);
    }
    lemma_assemble_seeded(doc, spans, attrs, lastg, empty_group());
    lemma_assemble_len(doc, spans, attrs, seq![empty_group()]);
    match assemble_spans(doc, spans, attrs, seq![empty_group()]) {
        Ok(l) => {
            assert(front + (seq![merge_groups(lastg, l[0])] + l.skip(1)) =~= stitch(acc, l));
        },
        Err(_) => {},
    }
}

/// Phase-2 worker: assembles its bucket of index-line spans into a local
/// group list, starting from one empty group.  The first local group may
/// be the continuation of the previous worker's last group; the stitching
/// step decides that.
pub fn assemble_bucket(
    doc: &[u8],
    spans: &Vec<(usize, usize)>,
    attrs: &VertexData,
) -> (r: Result<Vec<VertexData>, ParseError>)
    requires
        crate::materialize::spans_in(spans_view(spans@), doc@.len() as int),
    ensures
        match r {
            Ok(gs) => {
                &&& assemble_spans(doc@, spans_view(spans@), attrs@, seq![empty_group()]) == Ok::<
                    _,
                    ErrView,
                >(gs.deep_view())
                &&& gs@.len() >= 1
            },
            Err(er) => {
                &&& assemble_spans(doc@, spans_view(spans@), attrs@, seq![empty_group()]) is Err
                &&& er@ == assemble_spans(
                    doc@,
                    spans_view(spans@),
                    attrs@,
                    seq![empty_group()],
                )->Err_0
            },
        },
{
    let ghost sv = spans_view(spans@);
    let mut groups: Vec<VertexData> = Vec::new();
    groups.push(VertexData::new());
    proof {
        assert(groups.deep_view() =~= seq![empty_group()]);
        assert(sv.skip(0) =~= sv);
    }
    let mut k: usize = 0;
    while k < spans.len()
        invariant
            k <= spans@.len(),
            sv == spans_view(spans@),
            crate::materialize::spans_in(sv, doc@.len() as int),
            groups@.len() >= 1,
            assemble_spans(doc@, sv.skip(k as int), attrs@, groups.deep_view()) == assemble_spans(
                doc@,
                sv,
                attrs@,
                seq![empty_group()],
            ),
        decreases spans@.len() - k,
    {
        let (s, e) = spans[k];
        proof {
            assert(sv[k as int] == (s as int, e as int));
            assert(sv.skip(k as int).len() > 0);
            assert(sv.skip(k as int)[0] == (s as int, e as int));
            assert(sv.skip(k as int).drop_first() =~= sv.skip(k as int + 1));
        }
        let ghost acc0 = groups.deep_view();
        let a = find_token_start(doc, s, e);
        if a < e && doc[a] == 103 {
            groups.push(VertexData::new());
            proof {
                assert(groups.deep_view() =~~= acc0.push(empty_group()));
            }
        } else if a < e {
            let li = groups.len() - 1;
            let group = &mut groups[li];
            let ghost gl = acc0.last();
            assert(group@ == gl);
            match face(doc, s, e, attrs, group) {
                Err(er) => {
                    proof {
                        assert(line_effect(doc@, s as int, e as int, attrs@, acc0) == Err::<
                            Seq<GroupView>,
                            ErrView,
                        >(er@));
                    }
                    return Err(er);
                },
                Ok(()) => {
                    proof {
                        assert(groups.deep_view() =~~= acc0.update(
                            acc0.len() - 1,
                            face_effect(doc@, s as int, e as int, attrs@, gl)->Ok_0,
                        ));
                    }
                },
            }
        }
        proof {
            assert(line_effect(doc@, s as int, e as int, attrs@, acc0) == Ok::<
                Seq<GroupView>,
                ErrView,
            >(groups.deep_view()));
        }
        k = k + 1;
    }
    proof {
        assert(sv.skip(sv.len() as int) =~= Seq::<(int, int)>::empty());
    }
    Ok(groups)
}

/// The sequential stitching step: merges one worker's local group list
/// onto the global list, in worker order.
pub fn stitch_groups(global: &mut Vec<VertexData>, local: Vec<VertexData>)
    requires
        local@.len() >= 1,
    ensures
        final(global).deep_view() == stitch(old(global).deep_view(), local.deep_view()),
        final(global)@.len() >= 1,
{
    let ghost exp = stitch(old(global).deep_view(), local.deep_view());
    if global.len() == 0 {
        let mut local = local;
        let ghost lv = local.deep_view();
        // Worker 0: its local list starts the global output.
        while local.len() > 0
            invariant
                global.deep_view() + local.deep_view() =~= lv,
                exp == lv,
            decreases local@.len(),
        {
            let ghost g0 = global.deep_view();
            let ghost l0 = local.deep_view();
            let first = local.remove(0);
            global.push(first);
            proof {
                assert(global.deep_view() =~~= g0.push(l0[0]));
                assert(local.deep_view() =~~= l0.skip(1));
                assert(g0.push(l0[0]) + l0.skip(1) =~= g0 + l0);
            }
        }
        proof {
            assert(global.deep_view() =~= exp);
        }
        return;
    }
    let mut local = local;
    let ghost g0 = old(global).deep_view();
    let ghost l0 = local.deep_view();
    let first = local.remove(0);
    proof {
        assert(local.deep_view() =~~= l0.skip(1));
    }
    let li = global.len() - 1;
    let last = &mut global[li];
    proof {
        assert(last@ == g0.last());
        assert(first@ == l0[0]);
    }
    last.extend(first);
    proof {
        assert(global.deep_view() =~~= g0.update(g0.len() - 1, merge_groups(g0.last(), l0[0])));
        assert(g0.update(g0.len() - 1, merge_groups(g0.last(), l0[0])) =~= g0.drop_last().push(
            merge_groups(g0.last(), l0[0]),
        ));
    }
    let ghost mid = g0.drop_last().push(merge_groups(g0.last(), l0[0]));
    while local.len() > 0
        invariant
            global.deep_view() + local.deep_view() =~= mid + l0.skip(1),
            global@.len() >= 1,
            exp == mid + l0.skip(1),
        decreases local@.len(),
    {
        let ghost gi = global.deep_view();
        let ghost li2 = local.deep_view();
        let first2 = local.remove(0);
        global.push(first2);
        proof {
            assert(global.deep_view() =~~= gi.push(li2[0]));
            assert(local.deep_view() =~~= li2.skip(1));
            assert(gi.push(li2[0]) + li2.skip(1) =~= gi + li2);
        }
    }
    proof {
        assert(global.deep_view() =~= exp);
    }
}

} // verus!
