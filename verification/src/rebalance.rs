//! Rebalancer: re-buckets classified line spans by item count.
//!
//! Phase 0 produces per-chunk span lists whose sizes follow byte ranges,
//! not line counts.  This module redistributes each category's spans into
//! exactly `n` buckets of near-equal item count, preserving document
//! order: with `total == q * n + r` items, the first `r` buckets receive
//! `q + 1` items and the remaining ones `q`, in one left-to-right scan.
//! The spread between the largest and the smallest bucket is therefore at
//! most one, for every total — [`lemma_balanced_partition`].

use vstd::prelude::*;

use crate::chunk::spans_view;

verus! {

/// The mathematical image of a bucket list.
pub open spec fn buckets_view(bs: Seq<Vec<(usize, usize)>>) -> Seq<Seq<(int, int)>> {
    bs.map_values(|v: Vec<(usize, usize)>| spans_view(v@))
}

/// Shape of a greedily filled bucket list: every bucket before the last
/// holds exactly `fit` items, the last at most `fit`, and the last is empty
/// only when it is the only bucket.
pub open spec fn buckets_fit(bs: Seq<Seq<(int, int)>>, fit: int) -> bool {
    &&& bs.len() >= 1
    &&& forall|k: int| 0 <= k < bs.len() - 1 ==> (#[trigger] bs[k]).len() == fit
    &&& bs.last().len() <= fit
    &&& (bs.len() == 1 || bs.last().len() >= 1)
}

/// Appending one item to the last inner sequence appends it to the
/// flattening.
proof fn lemma_flatten_update_last<A>(bs: Seq<Seq<A>>, x: A)
    requires
        bs.len() >= 1,
    ensures
        bs.update(bs.len() - 1, bs.last().push(x)).flatten() == bs.flatten() + seq![x],
{
    let dl = bs.drop_last();
    let upd = bs.update(bs.len() - 1, bs.last().push(x));
    assert(bs =~= dl.push(bs.last()));
    assert(upd =~= dl.push(bs.last().push(x)));
    dl.lemma_flatten_push(bs.last());
    dl.lemma_flatten_push(bs.last().push(x));
    assert(bs.last().push(x) =~= bs.last() + seq![x]);
    assert(upd.flatten() =~= bs.flatten() + seq![x]);
}

/// The item count of bucket `k` when `total` items are cut evenly into `n`
/// buckets: one extra item for each of the first `total % n` buckets.
pub open spec fn bucket_len(total: int, n: int, k: int) -> int {
    total / n + if k < total % n {
        1int
    } else {
        0int
    }
}

/// Total item count of the first `c` buckets of the even cut.
pub open spec fn targets_sum(total: int, n: int, c: int) -> int {
    c * (total / n) + if c < total % n {
        c
    } else {
        total % n
    }
}

/// One more bucket adds exactly its own target.
proof fn lemma_targets_sum_step(total: int, n: int, c: int)
    requires
        n >= 1,
        0 <= total,
        0 <= c,
    ensures
        targets_sum(total, n, c + 1) == targets_sum(total, n, c) + bucket_len(total, n, c),
{
    let q = total / n;
    vstd::arithmetic::div_mod::lemma_mod_bound(total, n);
    assert((c + 1) * q == c * q + q) by (nonlinear_arith);
}

/// The targets of all `n` buckets add up to the total.
proof fn lemma_targets_sum_all(total: int, n: int)
    requires
        n >= 1,
        0 <= total,
    ensures
        targets_sum(total, n, n) == total,
{
    let q = total / n;
    let r = total % n;
    vstd::arithmetic::div_mod::lemma_fundamental_div_mod(total, n);
    vstd::arithmetic::div_mod::lemma_mod_bound(total, n);
    assert(n * q == q * n) by (nonlinear_arith);
}

/// Bucket targets are never negative.
proof fn lemma_bucket_len_bounds(total: int, n: int, k: int)
    requires
        n >= 1,
        0 <= total,
    ensures
        0 <= bucket_len(total, n, k) <= total / n + 1,
{
    vstd::arithmetic::div_mod::lemma_div_pos_is_pos(total, n);
}

/// A bucket list is the even, order-preserving cut of its flattening.
pub open spec fn balanced(bs: Seq<Seq<(int, int)>>, n: int) -> bool {
    let total = bs.flatten().len() as int;
    &&& bs.len() == n
    &&& forall|k: int| 0 <= k < n ==> (#[trigger] bs[k]).len() == bucket_len(total, n, k)
}

/// Law of the rebalancer: for any total item count, the difference between
/// the largest and the smallest bucket's item count is at most one.
pub proof fn lemma_balanced_partition(bs: Seq<Seq<(int, int)>>, n: int)
    requires
        n >= 1,
        balanced(bs, n),
    ensures
        forall|j: int, k: int|
            0 <= j < n && 0 <= k < n ==> (#[trigger] bs[j]).len() - (#[trigger] bs[k]).len() <= 1,
{
    let total = bs.flatten().len() as int;
    let q = total / n;
    assert forall|k: int| 0 <= k < n implies q <= (#[trigger] bs[k]).len() <= q + 1 by {
        assert(bs[k].len() == bucket_len(total, n, k));
    }
}

/// Appends `extend_data` to a bucket list, filling the last bucket to
/// `fit_size` items before opening a new one, in document order: every
/// item is appended exactly once, none reordered, none lost.
pub fn extend_fit(
    data: &mut Vec<Vec<(usize, usize)>>,
    extend_data: &Vec<(usize, usize)>,
    fit_size: usize,
)
    requires
        old(data)@.len() >= 1,
    ensures
        final(data)@.len() >= 1,
        buckets_view(final(data)@).flatten() == buckets_view(old(data)@).flatten() + spans_view(
            extend_data@,
        ),
        fit_size >= 1 && buckets_fit(buckets_view(old(data)@), fit_size as int) ==> buckets_fit(
            buckets_view(final(data)@),
            fit_size as int,
        ),
{
    let mut idx: usize = 0;
    while idx < extend_data.len()
        invariant
            idx <= extend_data.len(),
            data@.len() >= 1,
            buckets_view(data@).flatten() == buckets_view(old(data)@).flatten() + spans_view(
                extend_data@.take(idx as int),
            ),
            fit_size >= 1 && buckets_fit(buckets_view(old(data)@), fit_size as int)
                ==> buckets_fit(buckets_view(data@), fit_size as int),
        decreases extend_data.len() - idx,
    {
        let item = extend_data[idx];
        let ghost iv = (item.0 as int, item.1 as int);
        let ghost before = buckets_view(data@);
        let l = data.len() - 1;
        if data[l].len() >= fit_size {
            // The last bucket is at capacity: open a new one for this item.
            let mut nb: Vec<(usize, usize)> = Vec::new();
            nb.push(item);
            data.push(nb);
            proof {
                let now = buckets_view(data@);
                assert(now =~~= before.push(seq![iv]));
                before.lemma_flatten_push(seq![iv]);
                if fit_size >= 1 && buckets_fit(buckets_view(old(data)@), fit_size as int) {
                    assert(buckets_fit(now, fit_size as int)) by {
                        assert(forall|k: int|
                            0 <= k < now.len() - 1 ==> (#[trigger] now[k]) == before[k]);
                        assert(before.last() == now[now.len() - 2]);
                    }
                }
            }
        } else {
            let bucket = &mut data[l];
            bucket.push(item);
            proof {
                let now = buckets_view(data@);
                assert(now =~~= before.update(l as int, before.last().push(iv))) by {
                    assert(spans_view(data@[l as int]@) =~= before[l as int].push(iv));
                }
                lemma_flatten_update_last(before, iv);
                if fit_size >= 1 && buckets_fit(buckets_view(old(data)@), fit_size as int) {
                    assert(buckets_fit(now, fit_size as int)) by {
                        assert(forall|k: int|
                            0 <= k < now.len() - 1 ==> (#[trigger] now[k]) == before[k]);
                    }
                }
            }
        }
        proof {
            assert(spans_view(extend_data@.take(idx + 1)) =~= spans_view(
                extend_data@.take(idx as int),
            ).push(iv));
            assert(buckets_view(old(data)@).flatten() + spans_view(extend_data@.take(idx + 1))
                =~= buckets_view(old(data)@).flatten() + spans_view(
                extend_data@.take(idx as int),
            ) + seq![iv]);
        }
        idx = idx + 1;
    }
    proof {
        assert(extend_data@.take(extend_data@.len() as int) =~= extend_data@);
    }
}

/// Redistributes per-chunk span lists into exactly `n` count-balanced
/// buckets, preserving document order: the total count is known after
/// phase 0, so each bucket's share is fixed up front and filled in one
/// left-to-right pass.
pub fn rebalance(lists: &Vec<Vec<(usize, usize)>>, n: usize) -> (r: Vec<Vec<(usize, usize)>>)
    requires
        n >= 1,
        buckets_view(lists@).flatten().len() <= usize::MAX,
    ensures
        r@.len() == n as int,
        buckets_view(r@).flatten() == buckets_view(lists@).flatten(),
        balanced(buckets_view(r@), n as int),
{
    let ghost all = buckets_view(lists@);
    let ghost flat = all.flatten();
    // Collect the spans in document order, which the increasing disjoint
    // chunk ranges guarantee equals worker-id order.
    let mut all_spans: Vec<(usize, usize)> = Vec::new();
    let mut i: usize = 0;
    proof {
        assert(all.take(0).flatten() =~= Seq::<(int, int)>::empty());
        assert(spans_view(all_spans@) =~= Seq::<(int, int)>::empty());
    }
    while i < lists.len()
        invariant
            i <= lists.len(),
            all == buckets_view(lists@),
            flat == all.flatten(),
            spans_view(all_spans@) == all.take(i as int).flatten(),
        decreases lists.len() - i,
    {
        let list = &lists[i];
        let ghost pre = all.take(i as int).flatten();
        proof {
            assert(spans_view(list@) == all[i as int]);
            assert(spans_view(list@.take(0)) =~= Seq::<(int, int)>::empty());
            assert(pre + spans_view(list@.take(0)) =~= pre);
        }
        let mut j: usize = 0;
        while j < list.len()
            invariant
                j <= list@.len(),
                spans_view(all_spans@) == pre + spans_view(list@.take(j as int)),
            decreases list@.len() - j,
        {
            let ghost sb = spans_view(all_spans@);
            let item = list[j];
            all_spans.push(item);
            proof {
                assert(spans_view(all_spans@) =~= sb.push((item.0 as int, item.1 as int)));
                assert(spans_view(list@.take(j + 1)) =~= spans_view(list@.take(j as int)).push(
                    (item.0 as int, item.1 as int),
                ));
                assert(pre + spans_view(list@.take(j + 1)) =~= sb.push(
                    (item.0 as int, item.1 as int),
                ));
            }
            j = j + 1;
        }
        proof {
            assert(list@.take(list@.len() as int) =~= list@);
            assert(spans_view(list@) == all[i as int]);
            assert(all.take(i + 1) =~= all.take(i as int).push(all[i as int]));
            all.take(i as int).lemma_flatten_push(all[i as int]);
        }
        i = i + 1;
    }
    proof {
        assert(all.take(lists@.len() as int) =~= all);
    }
    let total = all_spans.len();
    let q = total / n;
    let rem = total % n;
    proof {
        lemma_targets_sum_all(total as int, n as int);
        vstd::arithmetic::div_mod::lemma_mod_bound(total as int, n as int);
    }
    // Cut into n buckets: one extra item for each of the first rem buckets.
    let mut out: Vec<Vec<(usize, usize)>> = Vec::new();
    let mut pos: usize = 0;
    let mut k: usize = 0;
    proof {
        assert(buckets_view(out@) =~= Seq::<Seq<(int, int)>>::empty());
        assert(buckets_view(out@).flatten() =~= flat.take(0));
    }
    while k < n
        invariant
            k <= n,
            n >= 1,
            total == all_spans@.len(),
            spans_view(all_spans@) == flat,
            q == total as int / n as int,
            rem == total as int % n as int,
            out@.len() == k,
            pos as int == targets_sum(total as int, n as int, k as int),
            pos <= total,
            buckets_view(out@).flatten() == flat.take(pos as int),
            forall|t: int|
                0 <= t < k ==> (#[trigger] buckets_view(out@)[t]).len() == bucket_len(
                    total as int,
                    n as int,
                    t,
                ),
        decreases n - k,
    {
        proof {
            lemma_targets_sum_step(total as int, n as int, k as int);
            lemma_bucket_len_bounds(total as int, n as int, k as int);
            // The remaining targets cover what is left, so this bucket's
            // share still fits.
            lemma_targets_sum_ge(total as int, n as int, k as int + 1);
            if k < rem {
                // A bucket with an extra item exists only when the division
                // leaves a remainder, so q + 1 cannot overflow.
                assert(n >= 2);
                vstd::arithmetic::div_mod::lemma_div_is_ordered_by_denominator(
                    total as int,
                    2,
                    n as int,
                );
                vstd::arithmetic::div_mod::lemma_div_is_ordered_by_denominator(total as int, 1, 2);
                vstd::arithmetic::div_mod::lemma_div_by_self(1);
            }
        }
        let target = if k < rem {
            q + 1
        } else {
            q
        };
        assert(pos + target <= total);
        let mut bucket: Vec<(usize, usize)> = Vec::new();
        let mut c: usize = 0;
        while c < target
            invariant
                c <= target,
                pos + target <= total == all_spans@.len(),
                spans_view(bucket@) == spans_view(all_spans@).subrange(
                    pos as int,
                    pos as int + c as int,
                ),
            decreases target - c,
        {
            let ghost bb = spans_view(bucket@);
            let item = all_spans[pos + c];
            bucket.push(item);
            proof {
                assert(spans_view(bucket@) =~= bb.push((item.0 as int, item.1 as int)));
                assert(spans_view(all_spans@).subrange(pos as int, pos as int + c as int + 1)
                    =~= bb.push((item.0 as int, item.1 as int)));
            }
            c = c + 1;
        }
        let ghost before = buckets_view(out@);
        out.push(bucket);
        pos = pos + target;
        proof {
            let now = buckets_view(out@);
            assert(now =~~= before.push(flat.subrange(
                pos as int - target as int,
                pos as int,
            )));
            before.lemma_flatten_push(flat.subrange(pos as int - target as int, pos as int));
            assert(flat.take(pos as int) =~= flat.take(pos as int - target as int)
                + flat.subrange(pos as int - target as int, pos as int));
            assert forall|t: int|
                0 <= t < k + 1 implies (#[trigger] now[t]).len() == bucket_len(
                total as int,
                n as int,
                t,
            ) by {
                if t < k {
                    assert(now[t] == before[t]);
                }
            }
        }
        k = k + 1;
    }
    proof {
        assert(flat.take(total as int) =~= flat);
        assert(buckets_view(out@).flatten().len() == flat.len());
    }
    out
}

/// The first `c` targets never exceed the total.
proof fn lemma_targets_sum_ge(total: int, n: int, c: int)
    requires
        n >= 1,
        0 <= total,
        0 <= c <= n,
    ensures
        targets_sum(total, n, c) <= total,
    decreases n - c,
{
    if c == n {
        lemma_targets_sum_all(total, n);
    } else {
        lemma_targets_sum_ge(total, n, c + 1);
        lemma_targets_sum_step(total, n, c);
        lemma_bucket_len_bounds(total, n, c);
    }
}

} // verus!
