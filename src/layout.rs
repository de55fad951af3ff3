//! How a batch of new items is spread over a pile: the pile is cut into one
//! contiguous bucket per new item, with sizes that differ by at most one, and
//! each new item goes into its own bucket at a chosen offset.
use vstd::prelude::*;

verus! {

/// Size of bucket `i` when `len` items are cut into `n` buckets: `len / n`,
/// plus one for each of the first `len % n` buckets.
pub open spec fn bucket_len(len: int, n: int, i: int) -> int {
    if i < len % n {
        len / n + 1
    } else {
        len / n
    }
}

/// Index, in the original pile, of the first item of bucket `i`.
pub open spec fn bucket_start(len: int, n: int, i: int) -> int {
    i * (len / n) + if i < len % n {
        i
    } else {
        len % n
    }
}

/// One offset per bucket, each at most the size of its bucket: offset `k`
/// places the new item after the first `k` items of the bucket.
pub open spec fn valid_offsets(len: int, offsets: Seq<usize>) -> bool {
    forall|i: int|
        0 <= i < offsets.len() ==> #[trigger] offsets[i] <= bucket_len(len, offsets.len() as int, i)
}

/// Buckets `i..` of `orig`, each with its new item placed at its offset.
pub open spec fn spread<T>(orig: Seq<T>, elems: Seq<T>, offsets: Seq<usize>, i: int) -> Seq<T>
    decreases elems.len() - i,
{
    if i < 0 || i >= elems.len() {
        Seq::empty()
    } else {
        let len = orig.len() as int;
        let n = elems.len() as int;
        let s = bucket_start(len, n, i);
        let p = s + offsets[i];
        orig.subrange(s, p) + seq![elems[i]] + orig.subrange(p, bucket_start(len, n, i + 1))
            + spread(orig, elems, offsets, i + 1)
    }
}

/// The pile `orig` after the items of `elems` were inserted, one per bucket,
/// at the given offsets. With no items the pile is unchanged.
pub open spec fn sparse_layout<T>(orig: Seq<T>, elems: Seq<T>, offsets: Seq<usize>) -> Seq<T> {
    if elems.len() == 0 {
        orig
    } else {
        spread(orig, elems, offsets, 0)
    }
}

/// Cutting `len` items into `n` buckets: the buckets are contiguous, cover the
/// pile from its first item to its last, and the first `len % n` of them hold
/// `len / n + 1` items, the others `len / n`.
pub proof fn lemma_buckets_partition(len: int, n: int)
    requires
        0 <= len,
        0 < n,
    ensures
        bucket_start(len, n, 0) == 0,
        bucket_start(len, n, n) == len,
        forall|i: int|
            0 <= i < n ==> #[trigger] bucket_start(len, n, i + 1) == bucket_start(len, n, i)
                + bucket_len(len, n, i),
        forall|i: int| 0 <= i <= n ==> 0 <= #[trigger] bucket_start(len, n, i) <= len,
        forall|i: int, j: int|
            0 <= i <= j <= n ==> #[trigger] bucket_start(len, n, i) <= #[trigger] bucket_start(
                len,
                n,
                j,
            ),
        forall|i: int|
            0 <= i < n ==> #[trigger] bucket_len(len, n, i) == if i < len % n {
                len / n + 1
            } else {
                len / n
            },
        forall|i: int, j: int|
            0 <= i <= j < n ==> 0 <= #[trigger] bucket_len(len, n, i) - #[trigger] bucket_len(
                len,
                n,
                j,
            ) <= 1,
{
    let q = len / n;
    let r = len % n;
    assert(len == n * q + r && 0 <= r < n && q >= 0) by (nonlinear_arith)
        requires
            0 <= len,
            0 < n,
            q == len / n,
            r == len % n,
    ;
    assert forall|i: int| 0 <= i < n implies #[trigger] bucket_start(len, n, i + 1) == bucket_start(
        len,
        n,
        i,
    ) + bucket_len(len, n, i) by {
        assert((i + 1) * q == i * q + q) by (nonlinear_arith);
    }
    assert forall|i: int| 0 <= i <= n implies 0 <= #[trigger] bucket_start(len, n, i) <= len by {
        assert(0 <= i * q <= n * q) by (nonlinear_arith)
            requires
                0 <= i <= n,
                0 <= q,
        ;
    }
    assert forall|i: int, j: int| 0 <= i <= j <= n implies #[trigger] bucket_start(len, n, i)
        <= #[trigger] bucket_start(len, n, j) by {
        assert(i * q <= j * q) by (nonlinear_arith)
            requires
                0 <= i <= j,
                0 <= q,
        ;
    }
}

/// Length of buckets `i..` once their new items are placed.
pub proof fn lemma_spread_len<T>(orig: Seq<T>, elems: Seq<T>, offsets: Seq<usize>, i: int)
    requires
        0 < elems.len(),
        0 <= i <= elems.len(),
        offsets.len() == elems.len(),
        valid_offsets(orig.len() as int, offsets),
    ensures
        spread(orig, elems, offsets, i).len() == orig.len() - bucket_start(
            orig.len() as int,
            elems.len() as int,
            i,
        ) + (elems.len() - i),
    decreases elems.len() - i,
{
    lemma_buckets_partition(orig.len() as int, elems.len() as int);
    if i < elems.len() {
        assert(offsets[i] <= bucket_len(orig.len() as int, elems.len() as int, i));
        lemma_spread_len(orig, elems, offsets, i + 1);
    }
}

/// Index, in the final pile, of the new item of bucket `j`.
pub open spec fn item_pos(len: int, offsets: Seq<usize>, j: int) -> int {
    bucket_start(len, offsets.len() as int, j) + j + offsets[j]
}

/// Index, in the final pile, of item `k` of original bucket `j`: it moves up
/// by one for each new item placed before it.
pub open spec fn kept_pos(len: int, offsets: Seq<usize>, j: int, k: int) -> int {
    bucket_start(len, offsets.len() as int, j) + j + k + if k < offsets[j] {
        0int
    } else {
        1int
    }
}

/// Where the items of buckets `i..` stand in `spread(orig, elems, offsets, i)`,
/// which begins at index `bucket_start(.., i) + i` of the final pile.
pub proof fn lemma_spread_index<T>(orig: Seq<T>, elems: Seq<T>, offsets: Seq<usize>, i: int)
    requires
        0 < elems.len(),
        0 <= i <= elems.len(),
        offsets.len() == elems.len(),
        valid_offsets(orig.len() as int, offsets),
    ensures
        forall|j: int|
            i <= j < elems.len() ==> spread(orig, elems, offsets, i)[#[trigger] item_pos(
                orig.len() as int,
                offsets,
                j,
            ) - bucket_start(orig.len() as int, elems.len() as int, i) - i] == elems[j],
        forall|j: int, k: int|
            i <= j < elems.len() && 0 <= k < bucket_len(orig.len() as int, elems.len() as int, j)
                ==> spread(orig, elems, offsets, i)[#[trigger] kept_pos(
                orig.len() as int,
                offsets,
                j,
                k,
            ) - bucket_start(orig.len() as int, elems.len() as int, i) - i] == orig[bucket_start(
                orig.len() as int,
                elems.len() as int,
                j,
            ) + k],
    decreases elems.len() - i,
{
    let len = orig.len() as int;
    let n = elems.len() as int;
    lemma_buckets_partition(len, n);
    if i < n {
        lemma_spread_index(orig, elems, offsets, i + 1);
        lemma_spread_len(orig, elems, offsets, i + 1);
        let s = bucket_start(len, n, i);
        let e = bucket_start(len, n, i + 1);
        let p = s + offsets[i];
        assert(offsets[i] <= bucket_len(len, n, i));
        let head = orig.subrange(s, p) + seq![elems[i]] + orig.subrange(p, e);
        let rest = spread(orig, elems, offsets, i + 1);
        assert(spread(orig, elems, offsets, i) == head + rest);
        assert(head.len() == e - s + 1);
        assert forall|j: int| i <= j < n implies spread(orig, elems, offsets, i)[#[trigger] item_pos(
            len,
            offsets,
            j,
        ) - s - i] == elems[j] by {
            assert(offsets[j] <= bucket_len(len, n, j));
            assert(bucket_start(len, n, j + 1) == bucket_start(len, n, j) + bucket_len(len, n, j));
            assert(bucket_start(len, n, j + 1) <= len);
            if j > i {
                assert(item_pos(len, offsets, j) - s - i == head.len() + (item_pos(len, offsets, j)
                    - e - (i + 1)));
            } else {
                assert(head[offsets[i] as int] == elems[i]);
            }
        }
        assert forall|j: int, k: int| i <= j < n && 0 <= k < bucket_len(len, n, j) implies spread(
            orig,
            elems,
            offsets,
            i,
        )[#[trigger] kept_pos(len, offsets, j, k) - s - i] == orig[bucket_start(len, n, j) + k] by {
            assert(offsets[j] <= bucket_len(len, n, j));
            assert(bucket_start(len, n, j + 1) == bucket_start(len, n, j) + bucket_len(len, n, j));
            assert(bucket_start(len, n, j + 1) <= len);
            if j > i {
                assert(kept_pos(len, offsets, j, k) - s - i == head.len() + (kept_pos(
                    len,
                    offsets,
                    j,
                    k,
                ) - e - (i + 1)));
            } else if k < offsets[i] {
                assert(head[k] == orig[s + k]);
            } else {
                assert(head[k + 1] == orig[s + k]);
            }
        }
    }
}

/// Sparse insertion of `elems` into `orig` at valid offsets: with no items the
/// pile is unchanged; otherwise the result is `elems.len()` items longer, item
/// `j` of `elems` stands inside the span of bucket `j` (which, with its new
/// item, covers indices `bucket_start(j) + j ..= bucket_start(j + 1) + j` of
/// the result), and every original item of that bucket stands in the same
/// span, in its original order, skipping only the new item's place.
pub proof fn lemma_sparse_layout<T>(orig: Seq<T>, elems: Seq<T>, offsets: Seq<usize>)
    requires
        offsets.len() == elems.len(),
        valid_offsets(orig.len() as int, offsets),
    ensures
        elems.len() == 0 ==> sparse_layout(orig, elems, offsets) == orig,
        sparse_layout(orig, elems, offsets).len() == orig.len() + elems.len(),
        forall|j: int|
            0 <= j < elems.len() ==> bucket_start(orig.len() as int, elems.len() as int, j) + j
                <= #[trigger] item_pos(orig.len() as int, offsets, j) <= bucket_start(
                orig.len() as int,
                elems.len() as int,
                j + 1,
            ) + j && sparse_layout(orig, elems, offsets)[item_pos(orig.len() as int, offsets, j)]
                == elems[j],
        forall|j: int, k: int|
            0 <= j < elems.len() && 0 <= k < bucket_len(orig.len() as int, elems.len() as int, j)
                ==> bucket_start(orig.len() as int, elems.len() as int, j) + j <= #[trigger] kept_pos(
                orig.len() as int,
                offsets,
                j,
                k,
            ) <= bucket_start(orig.len() as int, elems.len() as int, j + 1) + j && sparse_layout(
                orig,
                elems,
                offsets,
            )[kept_pos(orig.len() as int, offsets, j, k)] == orig[bucket_start(
                orig.len() as int,
                elems.len() as int,
                j,
            ) + k],
{
    if elems.len() > 0 {
        let len = orig.len() as int;
        let n = elems.len() as int;
        lemma_buckets_partition(len, n);
        lemma_spread_len(orig, elems, offsets, 0);
        lemma_spread_index(orig, elems, offsets, 0);
        assert forall|j: int| 0 <= j < n implies bucket_start(len, n, j) + j <= #[trigger] item_pos(
            len,
            offsets,
            j,
        ) <= bucket_start(len, n, j + 1) + j && sparse_layout(orig, elems, offsets)[item_pos(
            len,
            offsets,
            j,
        )] == elems[j] by {
            assert(offsets[j] <= bucket_len(len, n, j));
            assert(item_pos(len, offsets, j) - bucket_start(len, n, 0) - 0 == item_pos(
                len,
                offsets,
                j,
            ));
        }
        assert forall|j: int, k: int| 0 <= j < n && 0 <= k < bucket_len(len, n, j) implies bucket_start(
            len,
            n,
            j,
        ) + j <= #[trigger] kept_pos(len, offsets, j, k) <= bucket_start(len, n, j + 1) + j
            && sparse_layout(orig, elems, offsets)[kept_pos(len, offsets, j, k)] == orig[bucket_start(
            len,
            n,
            j,
        ) + k] by {
            assert(offsets[j] <= bucket_len(len, n, j));
            assert(kept_pos(len, offsets, j, k) - bucket_start(len, n, 0) - 0 == kept_pos(
                len,
                offsets,
                j,
                k,
            ));
        }
    }
}

} // verus!
