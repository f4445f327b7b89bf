//! Trees as parent arrays: descendants, subtree sizes and how appending nodes leaves them.
use vstd::prelude::*;

verus! {

/// Every node's parent comes before it (a root has a negative parent).
pub open spec fn parents_wf(ps: Seq<int>) -> bool {
    forall|i: int| 0 <= i < ps.len() ==> #[trigger] ps[i] < i
}

/// Whether `j` is `r` or lies below it.
pub open spec fn desc(ps: Seq<int>, j: int, r: int) -> bool
    decreases j,
{
    if j == r {
        true
    } else if j < 0 || j >= ps.len() {
        false
    } else {
        let p = ps[j];
        if 0 <= p < j {
            desc(ps, p, r)
        } else {
            false
        }
    }
}

/// The size of the subtree of `r`, as the generator counts it: one plus the sizes of
/// the children.
pub open spec fn size(ps: Seq<int>, r: int) -> nat
    decreases ps.len() - r, ps.len() + 1,
{
    if 0 <= r < ps.len() {
        1 + kids(ps, r, 0)
    } else {
        0
    }
}

/// The sizes of the children of `r` at indices `i` and above.
pub open spec fn kids(ps: Seq<int>, r: int, i: int) -> nat
    decreases ps.len() - r, ps.len() - i,
{
    if !(0 <= r < ps.len()) || i >= ps.len() || i < 0 {
        0
    } else if i <= r {
        kids(ps, r, i + 1)
    } else {
        (if ps[i] == r {
            size(ps, i)
        } else {
            0
        }) + kids(ps, r, i + 1)
    }
}

/// How many of `0 .. hi` satisfy `p`.
pub open spec fn count(p: spec_fn(int) -> bool, hi: int) -> nat
    decreases hi,
{
    if hi <= 0 {
        0
    } else {
        count(p, hi - 1) + if p(hi - 1) {
            1nat
        } else {
            0nat
        }
    }
}

/// The child of `r` on the way from `r` down to `j`.
pub open spec fn top(ps: Seq<int>, j: int, r: int) -> int
    decreases j,
{
    if j < 0 || j >= ps.len() {
        j
    } else {
        let p = ps[j];
        if p == r {
            j
        } else if 0 <= p < j {
            top(ps, p, r)
        } else {
            j
        }
    }
}

pub proof fn lemma_count_ext(p: spec_fn(int) -> bool, q: spec_fn(int) -> bool, hi: int)
    requires
        forall|j: int| 0 <= j < hi ==> #[trigger] p(j) == q(j),
    ensures
        count(p, hi) == count(q, hi),
    decreases hi,
{
    if hi > 0 {
        lemma_count_ext(p, q, hi - 1);
    }
}

pub proof fn lemma_count_split(p: spec_fn(int) -> bool, a: spec_fn(int) -> bool, b: spec_fn(int) -> bool, hi: int)
    requires
        forall|j: int| 0 <= j < hi ==> #[trigger] p(j) == (a(j) || b(j)),
        forall|j: int| 0 <= j < hi ==> !(#[trigger] a(j) && b(j)),
    ensures
        count(p, hi) == count(a, hi) + count(b, hi),
    decreases hi,
{
    if hi > 0 {
        lemma_count_split(p, a, b, hi - 1);
    }
}

pub proof fn lemma_count_none(p: spec_fn(int) -> bool, hi: int)
    requires
        forall|j: int| 0 <= j < hi ==> !#[trigger] p(j),
    ensures
        count(p, hi) == 0,
    decreases hi,
{
    if hi > 0 {
        lemma_count_none(p, hi - 1);
    }
}

pub proof fn lemma_count_one(r: int, hi: int)
    requires
        0 <= r < hi,
    ensures
        count(|j: int| j == r, hi) == 1,
    decreases hi,
{
    if hi - 1 > r {
        lemma_count_one(r, hi - 1);
    } else {
        lemma_count_none(|j: int| j == r, hi - 1);
    }
}

/// Counting only indices at or above `lo`.
pub proof fn lemma_count_above(p: spec_fn(int) -> bool, lo: int, hi: int)
    requires
        0 <= lo,
        forall|j: int| 0 <= j < hi && #[trigger] p(j) ==> j >= lo,
    ensures
        count(p, hi) <= if hi > lo {
            hi - lo
        } else {
            0
        },
    decreases hi,
{
    if hi > 0 {
        lemma_count_above(p, lo, hi - 1);
        if hi <= lo {
            assert(!p(hi - 1));
        }
    }
}

/// Counting a range in which every index from `lo` satisfies `p`.
pub proof fn lemma_count_block(p: spec_fn(int) -> bool, lo: int, hi: int)
    requires
        0 <= lo <= hi,
        forall|j: int| 0 <= j < hi ==> (#[trigger] p(j) <==> j >= lo),
    ensures
        count(p, hi) == hi - lo,
    decreases hi,
{
    if hi > lo {
        lemma_count_block(p, lo, hi - 1);
    } else {
        lemma_count_none(p, hi);
    }
}

pub proof fn lemma_desc_above(ps: Seq<int>, j: int, r: int)
    requires
        desc(ps, j, r),
    ensures
        j >= r,
    decreases j,
{
    if j != r {
        lemma_desc_above(ps, ps[j], r);
    }
}

pub proof fn lemma_desc_bound(ps: Seq<int>, j: int, r: int)
    requires
        desc(ps, j, r),
        0 <= r < ps.len(),
    ensures
        0 <= j < ps.len(),
    decreases j,
{
    if j != r {
        lemma_desc_above(ps, ps[j], r);
    }
}

pub proof fn lemma_desc_trans(ps: Seq<int>, j: int, m: int, r: int)
    requires
        desc(ps, j, m),
        desc(ps, m, r),
    ensures
        desc(ps, j, r),
    decreases j,
{
    if j != m {
        lemma_desc_trans(ps, ps[j], m, r);
    }
}

/// The child of `r` on the way down to `j` is a child of `r` above `j`.
pub proof fn lemma_top(ps: Seq<int>, j: int, r: int)
    requires
        parents_wf(ps),
        desc(ps, j, r),
        j != r,
        0 <= r,
    ensures
        r < top(ps, j, r) <= j,
        0 <= top(ps, j, r) < ps.len(),
        ps[top(ps, j, r)] == r,
        desc(ps, j, top(ps, j, r)),
    decreases j,
{
    let p = ps[j];
    if p != r {
        lemma_top(ps, p, r);
    }
}

/// Below a child `c` of `r`, the child of `r` on the way down is `c`.
pub proof fn lemma_top_unique(ps: Seq<int>, j: int, c: int, r: int)
    requires
        parents_wf(ps),
        0 <= r,
        0 <= c < ps.len(),
        ps[c] == r,
        desc(ps, j, c),
    ensures
        desc(ps, j, r),
        j != r,
        top(ps, j, r) == c,
    decreases j,
{
    lemma_desc_above(ps, j, c);
    assert(ps[c] < c);
    assert(desc(ps, r, r));
    assert(desc(ps, c, r));
    if j != c {
        lemma_desc_bound(ps, j, c);
        let p = ps[j];
        lemma_top_unique(ps, p, c, r);
        assert(desc(ps, j, r));
    }
}

/// Children sizes from index `i` count the proper descendants whose branch starts at `i`
/// or later.
pub proof fn lemma_kids_count(ps: Seq<int>, r: int, i: int)
    requires
        parents_wf(ps),
        0 <= r < ps.len(),
        0 <= i <= ps.len(),
    ensures
        kids(ps, r, i) == count(
            |j: int| desc(ps, j, r) && j != r && top(ps, j, r) >= i,
            ps.len() as int,
        ),
    decreases ps.len() - r, ps.len() - i,
{
    let n = ps.len() as int;
    let pi = |j: int| desc(ps, j, r) && j != r && top(ps, j, r) >= i;
    if i == n {
        assert forall|j: int| 0 <= j < n implies !#[trigger] pi(j) by {
            if desc(ps, j, r) && j != r {
                lemma_top(ps, j, r);
            }
        }
        lemma_count_none(pi, n);
    } else if i <= r {
        lemma_kids_count(ps, r, i + 1);
        let pn = |j: int| desc(ps, j, r) && j != r && top(ps, j, r) >= i + 1;
        assert forall|j: int| 0 <= j < n implies #[trigger] pi(j) == pn(j) by {
            if desc(ps, j, r) && j != r {
                lemma_top(ps, j, r);
            }
        }
        lemma_count_ext(pi, pn, n);
    } else {
        lemma_kids_count(ps, r, i + 1);
        let pn = |j: int| desc(ps, j, r) && j != r && top(ps, j, r) >= i + 1;
        let q = |j: int| desc(ps, j, r) && j != r && top(ps, j, r) == i;
        assert forall|j: int| 0 <= j < n implies #[trigger] pi(j) == (q(j) || pn(j)) by {
        }
        lemma_count_split(pi, q, pn, n);
        if ps[i] == r {
            lemma_size_count(ps, i);
            let d = |j: int| desc(ps, j, i);
            assert forall|j: int| 0 <= j < n implies #[trigger] q(j) == d(j) by {
                if d(j) {
                    lemma_top_unique(ps, j, i, r);
                }
                if q(j) {
                    lemma_top(ps, j, r);
                }
            }
            lemma_count_ext(q, d, n);
        } else {
            assert forall|j: int| 0 <= j < n implies !#[trigger] q(j) by {
                if q(j) {
                    lemma_top(ps, j, r);
                }
            }
            lemma_count_none(q, n);
        }
    }
}

/// A subtree's size is the number of nodes at or below its root.
pub proof fn lemma_size_count(ps: Seq<int>, r: int)
    requires
        parents_wf(ps),
        0 <= r < ps.len(),
    ensures
        size(ps, r) == count(|j: int| desc(ps, j, r), ps.len() as int),
    decreases ps.len() - r, ps.len() + 1,
{
    let n = ps.len() as int;
    lemma_kids_count(ps, r, 0);
    let all = |j: int| desc(ps, j, r);
    let me = |j: int| j == r;
    let below = |j: int| desc(ps, j, r) && j != r && top(ps, j, r) >= 0;
    assert forall|j: int| 0 <= j < n implies #[trigger] all(j) == (me(j) || below(j)) by {
        if desc(ps, j, r) && j != r {
            lemma_top(ps, j, r);
        }
    }
    lemma_count_split(all, me, below, n);
    lemma_count_one(r, n);
}

/// A subtree holds at most the nodes from its root on.
pub proof fn lemma_size_bound(ps: Seq<int>, r: int)
    requires
        parents_wf(ps),
        0 <= r < ps.len(),
    ensures
        1 <= size(ps, r) <= ps.len() - r,
{
    lemma_size_count(ps, r);
    assert forall|j: int| 0 <= j < ps.len() && desc(ps, j, r) implies j >= r by {
        lemma_desc_above(ps, j, r);
    }
    lemma_count_above(|j: int| desc(ps, j, r), r, ps.len() as int);
}

/// A subtree that holds every node from its root to the end has that many nodes.
pub proof fn lemma_size_block(ps: Seq<int>, r: int)
    requires
        parents_wf(ps),
        0 <= r < ps.len(),
        forall|j: int| r <= j < ps.len() ==> desc(ps, j, r),
    ensures
        size(ps, r) == ps.len() - r,
{
    lemma_size_count(ps, r);
    assert forall|j: int| 0 <= j < ps.len() implies desc(ps, j, r) <==> j >= r by {
        if desc(ps, j, r) {
            lemma_desc_above(ps, j, r);
        }
    }
    lemma_count_block(|j: int| desc(ps, j, r), r, ps.len() as int);
}

/// Appended nodes whose parents are appended too, or outside the subtree of `r`, leave
/// the subtree of `r` as it was.
pub open spec fn appended_outside(ps: Seq<int>, qs: Seq<int>, r: int) -> bool {
    &&& ps.len() <= qs.len()
    &&& forall|k: int| 0 <= k < ps.len() ==> #[trigger] qs[k] == ps[k]
    &&& forall|k: int|
        ps.len() <= k < qs.len() ==> #[trigger] qs[k] < k && (qs[k] >= ps.len() || !desc(
            ps,
            qs[k],
            r,
        ))
}

pub proof fn lemma_desc_stable(ps: Seq<int>, qs: Seq<int>, r: int, j: int)
    requires
        appended_outside(ps, qs, r),
        0 <= r < ps.len(),
        0 <= j < qs.len(),
    ensures
        j < ps.len() ==> desc(qs, j, r) == desc(ps, j, r),
        j >= ps.len() ==> !desc(qs, j, r),
    decreases j,
{
    if j != r {
        let p = qs[j];
        if 0 <= p < j {
            lemma_desc_stable(ps, qs, r, p);
            if j >= ps.len() && p < ps.len() {
                assert(!desc(ps, p, r));
            }
        }
    }
}

/// Appending outside a subtree leaves its size.
pub proof fn lemma_size_stable(ps: Seq<int>, qs: Seq<int>, r: int)
    requires
        parents_wf(ps),
        parents_wf(qs),
        appended_outside(ps, qs, r),
        0 <= r < ps.len(),
    ensures
        size(qs, r) == size(ps, r),
{
    lemma_size_count(ps, r);
    lemma_size_count(qs, r);
    let a = |j: int| desc(qs, j, r);
    let b = |j: int| desc(ps, j, r);
    assert forall|j: int| 0 <= j < qs.len() implies #[trigger] a(j) == (j < ps.len() && b(j)) by {
        lemma_desc_stable(ps, qs, r, j);
    }
    lemma_count_prefix(a, b, ps.len() as int, qs.len() as int);
}

proof fn lemma_count_prefix(a: spec_fn(int) -> bool, b: spec_fn(int) -> bool, lo: int, hi: int)
    requires
        0 <= lo <= hi,
        forall|j: int| 0 <= j < hi ==> #[trigger] a(j) == (j < lo && b(j)),
    ensures
        count(a, hi) == count(b, lo),
    decreases hi,
{
    if hi > lo {
        lemma_count_prefix(a, b, lo, hi - 1);
    } else {
        lemma_count_ext(a, b, lo);
    }
}

} // verus!
