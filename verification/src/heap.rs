//! Mathematical model of a complete binary tree packed breadth-first into a
//! flat array: `2k - 1` slots for `k` leaves, children of slot `i` at
//! `2i + 1` and `2i + 2`, parent of slot `i > 0` at `(i - 1) / 2`.
//! Internal slots occupy `[0, k - 1)`, leaf slots occupy `[k - 1, 2k - 1)`.
use vstd::prelude::*;

verus! {

/// Number of leaves of a packed tree stored in `size` slots.
pub open spec fn leaves_of_size(size: int) -> int {
    (size + 1) / 2
}

/// The sizes a packed tree can have: `2k - 1` slots for `k >= 1` leaves.
pub open spec fn valid_size(size: int) -> bool {
    size >= 1 && size == 2 * leaves_of_size(size) - 1
}

pub open spec fn is_internal_slot(i: int, size: int) -> bool {
    0 <= i < leaves_of_size(size) - 1
}

pub open spec fn is_leaf_slot(i: int, size: int) -> bool {
    leaves_of_size(size) - 1 <= i < size
}

/// One slot's sum fact: slot `j` holds exactly the sum of its two children.
pub open spec fn child_sum_at(s: Seq<int>, j: int) -> bool {
    s[j] == s[2 * j + 1] + s[2 * j + 2]
}

/// The sum invariant of the packed tree: every internal slot holds exactly
/// the sum of its two children.
pub open spec fn heap_wf(s: Seq<int>) -> bool {
    forall|i: int|
        is_internal_slot(i, s.len() as int) ==> #[trigger] s[i] == s[2 * i + 1] + s[2 * i + 2]
}

pub open spec fn all_nonneg(s: Seq<int>) -> bool {
    forall|i: int| 0 <= i < s.len() ==> #[trigger] s[i] >= 0
}

/// `a` is `d` itself or one of its ancestors in the packed tree.
pub open spec fn on_path(a: int, d: int) -> bool
    decreases d,
{
    a == d || (d > 0 && on_path(a, (d - 1) / 2))
}

/// Sum of the slots `[lo, hi)`.
pub open spec fn range_sum(s: Seq<int>, lo: int, hi: int) -> int
    decreases hi - lo,
{
    if lo >= hi {
        0
    } else {
        s[lo] + range_sum(s, lo + 1, hi)
    }
}

pub open spec fn seq_sum(s: Seq<int>) -> int {
    range_sum(s, 0, s.len() as int)
}

pub proof fn lemma_range_sum_unfold_right(s: Seq<int>, lo: int, hi: int)
    requires
        lo <= hi,
    ensures
        range_sum(s, lo, hi + 1) == range_sum(s, lo, hi) + s[hi],
    decreases hi - lo,
{
    if lo < hi {
        lemma_range_sum_unfold_right(s, lo + 1, hi);
    } else {
        assert(range_sum(s, hi + 1, hi + 1) == 0);
    }
}

pub proof fn lemma_range_sum_congruence(s: Seq<int>, t: Seq<int>, lo: int, hi: int)
    requires
        forall|j: int| lo <= j < hi ==> s[j] == t[j],
    ensures
        range_sum(s, lo, hi) == range_sum(t, lo, hi),
    decreases hi - lo,
{
    if lo < hi {
        lemma_range_sum_congruence(s, t, lo + 1, hi);
    }
}

pub proof fn lemma_range_sum_nonneg(s: Seq<int>, lo: int, hi: int)
    requires
        forall|j: int| lo <= j < hi ==> s[j] >= 0,
    ensures
        range_sum(s, lo, hi) >= 0,
    decreases hi - lo,
{
    if lo < hi {
        lemma_range_sum_nonneg(s, lo + 1, hi);
    }
}

/// The slots `[lo + k, lo + q.len())` of `s` sum to the same value as the
/// entries `[k, q.len())` of `q`, when `s` holds `q` starting at `lo`.
pub proof fn lemma_range_sum_offset(s: Seq<int>, q: Seq<int>, lo: int, k: int)
    requires
        0 <= k <= q.len(),
        forall|t: int| 0 <= t < q.len() ==> s[lo + t] == #[trigger] q[t],
    ensures
        range_sum(s, lo + k, lo + q.len()) == range_sum(q, k, q.len() as int),
    decreases q.len() - k,
{
    if k < q.len() {
        lemma_range_sum_offset(s, q, lo, k + 1);
    }
}

/// The telescoping step: for every `k`, the slots `[k, 2k + 1)` of a
/// well-formed packed tree sum to the sum of its leaf slots.
proof fn lemma_telescope(s: Seq<int>, k: int)
    requires
        valid_size(s.len() as int),
        heap_wf(s),
        0 <= k <= leaves_of_size(s.len() as int) - 1,
    ensures
        range_sum(s, k, 2 * k + 1) == range_sum(
            s,
            leaves_of_size(s.len() as int) - 1,
            s.len() as int,
        ),
    decreases leaves_of_size(s.len() as int) - 1 - k,
{
    let nl = leaves_of_size(s.len() as int);
    if k < nl - 1 {
        lemma_telescope(s, k + 1);
        assert(is_internal_slot(k, s.len() as int));
        assert(s[k] == s[2 * k + 1] + s[2 * k + 2]);
        lemma_range_sum_unfold_right(s, k + 1, 2 * k + 1);
        lemma_range_sum_unfold_right(s, k + 1, 2 * k + 2);
    }
}

/// The root of a well-formed packed tree holds the sum of all its leaves.
pub proof fn lemma_root_is_leaf_sum(s: Seq<int>)
    requires
        valid_size(s.len() as int),
        heap_wf(s),
    ensures
        s[0] == range_sum(s, leaves_of_size(s.len() as int) - 1, s.len() as int),
{
    lemma_telescope(s, 0);
    assert(range_sum(s, 0, 1) == s[0] + range_sum(s, 1, 1));
}

pub proof fn lemma_on_path_bounds(a: int, d: int)
    requires
        on_path(a, d),
        d >= 0,
    ensures
        0 <= a <= d,
    decreases d,
{
    if a != d {
        lemma_on_path_bounds(a, (d - 1) / 2);
    }
}

pub proof fn lemma_root_on_path(d: int)
    requires
        d >= 0,
    ensures
        on_path(0, d),
    decreases d,
{
    if d > 0 {
        lemma_root_on_path((d - 1) / 2);
    }
}

/// Being on a path is closed under stepping from a node to its parent.
pub proof fn lemma_on_path_parent(a: int, d: int)
    requires
        on_path(a, d),
        a > 0,
    ensures
        on_path((a - 1) / 2, d),
    decreases d,
{
    if a != d {
        lemma_on_path_parent(a, (d - 1) / 2);
    } else {
        assert(on_path((a - 1) / 2, (a - 1) / 2));
    }
}

/// Two ancestors of one node lie on one chain.
pub proof fn lemma_on_path_chain(a: int, b: int, d: int)
    requires
        on_path(a, d),
        on_path(b, d),
        d >= 0,
    ensures
        on_path(a, b) || on_path(b, a),
    decreases d,
{
    if a != d && b != d {
        lemma_on_path_chain(a, b, (d - 1) / 2);
    }
}

/// A strict ancestor of `d` reaches `d` through exactly one of its children.
pub proof fn lemma_child_on_path(i: int, d: int)
    requires
        on_path(i, d),
        i != d,
        i >= 0,
        d >= 0,
    ensures
        on_path(2 * i + 1, d) || on_path(2 * i + 2, d),
        !(on_path(2 * i + 1, d) && on_path(2 * i + 2, d)),
    decreases d,
{
    let p = (d - 1) / 2;
    if p == i {
        assert(d == 2 * i + 1 || d == 2 * i + 2);
    } else {
        lemma_child_on_path(i, p);
    }
    if on_path(2 * i + 1, d) && on_path(2 * i + 2, d) {
        lemma_on_path_chain(2 * i + 1, 2 * i + 2, d);
        if on_path(2 * i + 1, 2 * i + 2) {
            assert((2 * i + 2 - 1) / 2 == i);
            lemma_on_path_bounds(2 * i + 1, i);
        } else {
            lemma_on_path_bounds(2 * i + 2, 2 * i + 1);
        }
    }
}

/// In a well-formed, non-negative packed tree, an ancestor's value dominates
/// every value in its subtree.
pub proof fn lemma_ancestor_ge(s: Seq<int>, a: int, d: int)
    requires
        valid_size(s.len() as int),
        heap_wf(s),
        all_nonneg(s),
        on_path(a, d),
        0 <= d < s.len(),
    ensures
        s[a] >= s[d],
    decreases d,
{
    if a != d {
        let p = (d - 1) / 2;
        assert(is_internal_slot(p, s.len() as int));
        assert(s[p] == s[2 * p + 1] + s[2 * p + 2]);
        assert(d == 2 * p + 1 || d == 2 * p + 2);
        lemma_ancestor_ge(s, a, p);
    }
}

/// Two leaf slots on one path are the same slot.
pub proof fn lemma_leaf_path_eq(a: int, d: int, size: int)
    requires
        on_path(a, d),
        is_leaf_slot(a, size),
        is_leaf_slot(d, size),
        valid_size(size),
    ensures
        a == d,
{
    if a != d {
        lemma_on_path_bounds(a, (d - 1) / 2);
    }
}

/// The slots already adjusted by delta propagation, once the walk has
/// reached `cur`: the slots from the leaf up to `cur`, inclusive.
pub open spec fn updated_slot(j: int, leaf: int, cur: int) -> bool {
    on_path(j, leaf) && (j == cur || !on_path(j, cur))
}

/// One step of the walk: moving from `cur` to its parent adjusts exactly the
/// parent, on top of what was adjusted before.
pub proof fn lemma_updated_step(leaf: int, cur: int)
    requires
        cur > 0,
        on_path(cur, leaf),
        leaf >= 0,
    ensures
        on_path((cur - 1) / 2, leaf),
        forall|j: int|
            #[trigger] updated_slot(j, leaf, (cur - 1) / 2) <==> (updated_slot(j, leaf, cur) || j
                == (cur - 1) / 2),
{
    let par = (cur - 1) / 2;
    lemma_on_path_parent(cur, leaf);
    assert forall|j: int|
        #[trigger] updated_slot(j, leaf, par) <==> (updated_slot(j, leaf, cur) || j == par) by {
        if on_path(cur, par) {
            lemma_on_path_bounds(cur, par);
        }
        assert(on_path(j, cur) <==> (j == cur || on_path(j, par)));
    }
}

/// Applying one delta along the path from a leaf to the root preserves
/// well-formedness and non-negativity, changes that leaf and the root by the
/// delta, and leaves every other leaf unchanged.
pub proof fn lemma_update_path(s: Seq<int>, t: Seq<int>, leaf: int, delta: int)
    requires
        valid_size(s.len() as int),
        heap_wf(s),
        all_nonneg(s),
        is_leaf_slot(leaf, s.len() as int),
        t.len() == s.len(),
        forall|j: int|
            0 <= j < s.len() ==> #[trigger] t[j] == s[j] + (if on_path(j, leaf) {
                delta
            } else {
                0
            }),
        s[leaf] + delta >= 0,
    ensures
        heap_wf(t),
        all_nonneg(t),
        t[0] == s[0] + delta,
        t[leaf] == s[leaf] + delta,
        forall|j: int| is_leaf_slot(j, s.len() as int) && j != leaf ==> #[trigger] t[j] == s[j],
{
    let size = s.len() as int;
    let nl = leaves_of_size(size);
    assert forall|i: int| is_internal_slot(i, size) implies #[trigger] t[i] == t[2 * i + 1] + t[2
        * i + 2] by {
        assert(s[i] == s[2 * i + 1] + s[2 * i + 2]);
        if on_path(i, leaf) {
            lemma_child_on_path(i, leaf);
        } else {
            if on_path(2 * i + 1, leaf) {
                lemma_on_path_parent(2 * i + 1, leaf);
                assert((2 * i + 1 - 1) / 2 == i);
            }
            if on_path(2 * i + 2, leaf) {
                lemma_on_path_parent(2 * i + 2, leaf);
                assert((2 * i + 2 - 1) / 2 == i);
            }
        }
    }
    assert forall|j: int| 0 <= j < t.len() implies #[trigger] t[j] >= 0 by {
        if on_path(j, leaf) {
            lemma_ancestor_ge(s, j, leaf);
        }
    }
    lemma_root_on_path(leaf);
    assert forall|j: int| is_leaf_slot(j, size) && j != leaf implies #[trigger] t[j] == s[j] by {
        if on_path(j, leaf) {
            lemma_leaf_path_eq(j, leaf, size);
        }
    }
}

} // verus!
