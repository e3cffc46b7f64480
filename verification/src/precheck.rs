//! What the bounded precheck phase of the equivalence algorithm computes.

use vstd::prelude::*;
use crate::equiv::EquivResult;
use crate::node::{differ_within, Node};

verus! {

/// `limit - 1`, saturating at `i32::MIN`.
pub open spec fn saturating_dec(limit: int) -> int {
    if limit - 1 < i32::MIN {
        i32::MIN as int
    } else {
        limit - 1
    }
}

/// The result of the precheck phase on `a` and `b` from `limit`, and the limit
/// left after it, when descents are bounded by `depth` levels.
///
/// Equal identities are equivalent; nodes unequivalent by themselves are
/// unequivalent; nodes with nothing to descend are equivalent; otherwise the
/// phase aborts when the limit is not positive or the depth bound is reached,
/// and else compares the descendents in order, decrementing the limit before
/// each, and stops at the first that is not equivalent.
pub open spec fn precheck_outcome<N: Node>(a: N, b: N, limit: int, depth: nat) -> (EquivResult, int)
    decreases depth, 1nat, 0int,
{
    if a.spec_id() == b.spec_id() {
        (EquivResult::Equiv, limit)
    } else {
        match a.spec_descend_amount(&b) {
            None => (EquivResult::Unequiv, limit),
            Some(k) => if k == 0 {
                (EquivResult::Equiv, limit)
            } else if limit <= 0 {
                (EquivResult::Abort, limit)
            } else if depth == 0 {
                (EquivResult::Abort, limit)
            } else {
                precheck_edges(a, b, 0, k as nat, limit, depth)
            },
        }
    }
}

/// The precheck phase over the descendents `i .. k` of `a` and `b`.
pub open spec fn precheck_edges<N: Node>(
    a: N,
    b: N,
    i: nat,
    k: nat,
    limit: int,
    depth: nat,
) -> (EquivResult, int)
    decreases depth, 0nat, k - i,
{
    if i >= k || depth == 0 {
        (EquivResult::Equiv, limit)
    } else {
        let child = precheck_outcome(
            a.spec_edge(i as int),
            b.spec_edge(i as int),
            saturating_dec(limit),
            (depth - 1) as nat,
        );
        if child.0 is Equiv {
            precheck_edges(a, b, i + 1, k, child.1, depth)
        } else {
            child
        }
    }
}

/// `limit - k`, saturating at `i32::MIN`.
pub open spec fn saturating_sub(limit: int, k: nat) -> int {
    if limit - k < i32::MIN {
        i32::MIN as int
    } else {
        limit - k
    }
}

/// Each of the first `k` pairs of descendents of `a` and `b` stops a comparison
/// at once: the two identities are equal, or there is nothing to descend.
pub open spec fn edges_stop_at_once<N: Node>(a: N, b: N, k: nat) -> bool {
    forall|j: int|
        #![trigger a.spec_edge(j)]
        0 <= j < k ==> a.spec_edge(j).spec_id() == b.spec_edge(j).spec_id() || a.spec_edge(j).spec_descend_amount(
            &b.spec_edge(j),
        ) == Some(0usize)
}

/// The precheck checks its limit only when it enters a pair with edges to
/// descend.  Entered with a positive limit, a pair whose pairs of descendents
/// all stop at once is equivalent, and each of its `k` pairs of descendents
/// costs one, however far below zero that takes the limit.
pub proof fn lemma_precheck_limit_checked_on_entry<N: Node>(a: N, b: N, limit: int, depth: nat)
    requires
        0 < limit,
        0 < depth,
        a.spec_id() != b.spec_id(),
        a.spec_descend_amount(&b) matches Some(k) && 0 < k && edges_stop_at_once(a, b, k as nat),
    ensures
        precheck_outcome(a, b, limit, depth) == (EquivResult::Equiv, saturating_sub(
            limit,
            a.spec_descend_amount(&b)->Some_0 as nat,
        )),
{
    let k = a.spec_descend_amount(&b)->Some_0 as nat;
    lemma_precheck_edges_stop_at_once(a, b, 0, k, limit, depth);
}

/// The precheck phase over descendents `i .. k` that all stop at once costs one
/// per pair.
proof fn lemma_precheck_edges_stop_at_once<N: Node>(a: N, b: N, i: nat, k: nat, limit: int, depth: nat)
    requires
        i <= k,
        0 < depth,
        i32::MIN <= limit,
        edges_stop_at_once(a, b, k),
    ensures
        precheck_edges(a, b, i, k, limit, depth) == (EquivResult::Equiv, saturating_sub(limit, (k - i) as nat)),
    decreases k - i,
{
    if i < k {
        let ea = a.spec_edge(i as int);
        let eb = b.spec_edge(i as int);
        assert(ea.spec_id() == eb.spec_id() || ea.spec_descend_amount(&eb) == Some(0usize));
        assert(precheck_outcome(ea, eb, saturating_dec(limit), (depth - 1) as nat) == (
            EquivResult::Equiv,
            saturating_dec(limit),
        ));
        lemma_precheck_edges_stop_at_once(a, b, i + 1, k, saturating_dec(limit), depth);
    }
}

/// The precheck phase never raises the limit.
pub proof fn lemma_precheck_limit_nonincreasing<N: Node>(a: N, b: N, limit: int, depth: nat)
    requires
        i32::MIN <= limit,
    ensures
        i32::MIN <= precheck_outcome(a, b, limit, depth).1 <= limit,
    decreases depth, 1nat, 0int,
{
    if a.spec_id() != b.spec_id() {
        match a.spec_descend_amount(&b) {
            None => {},
            Some(k) => {
                if k != 0 && limit > 0 && depth != 0 {
                    lemma_precheck_edges_limit_nonincreasing(a, b, 0, k as nat, limit, depth);
                }
            },
        }
    }
}

/// The precheck phase over descendents never raises the limit.
pub proof fn lemma_precheck_edges_limit_nonincreasing<N: Node>(
    a: N,
    b: N,
    i: nat,
    k: nat,
    limit: int,
    depth: nat,
)
    requires
        i32::MIN <= limit,
    ensures
        i32::MIN <= precheck_edges(a, b, i, k, limit, depth).1 <= limit,
    decreases depth, 0nat, k - i,
{
    if i < k && depth != 0 {
        let c = precheck_outcome(
            a.spec_edge(i as int),
            b.spec_edge(i as int),
            saturating_dec(limit),
            (depth - 1) as nat,
        );
        lemma_precheck_limit_nonincreasing(
            a.spec_edge(i as int),
            b.spec_edge(i as int),
            saturating_dec(limit),
            (depth - 1) as nat,
        );
        if c.0 is Equiv {
            lemma_precheck_edges_limit_nonincreasing(a, b, i + 1, k, c.1, depth);
        }
    }
}

/// The depth bound never cuts the precheck phase short when it is at least the
/// limit: the outcome is then the same for every such bound.
pub proof fn lemma_precheck_depth_irrelevant<N: Node>(a: N, b: N, limit: int, d1: nat, d2: nat)
    requires
        i32::MIN <= limit,
        limit <= d1,
        limit <= d2,
    ensures
        precheck_outcome(a, b, limit, d1) == precheck_outcome(a, b, limit, d2),
    decreases d1, 1nat, 0int,
{
    if a.spec_id() != b.spec_id() {
        match a.spec_descend_amount(&b) {
            None => {},
            Some(k) => {
                if k != 0 && limit > 0 {
                    lemma_precheck_edges_depth_irrelevant(a, b, 0, k as nat, limit, d1, d2);
                }
            },
        }
    }
}

/// The depth bound never cuts the precheck phase over descendents short when it
/// is positive and at least the limit.
pub proof fn lemma_precheck_edges_depth_irrelevant<N: Node>(
    a: N,
    b: N,
    i: nat,
    k: nat,
    limit: int,
    d1: nat,
    d2: nat,
)
    requires
        i32::MIN <= limit,
        limit <= d1,
        limit <= d2,
        d1 > 0,
        d2 > 0,
    ensures
        precheck_edges(a, b, i, k, limit, d1) == precheck_edges(a, b, i, k, limit, d2),
    decreases d1, 0nat, k - i,
{
    if i < k {
        let ea = a.spec_edge(i as int);
        let eb = b.spec_edge(i as int);
        let l = saturating_dec(limit);
        lemma_precheck_depth_irrelevant(ea, eb, l, (d1 - 1) as nat, (d2 - 1) as nat);
        let c = precheck_outcome(ea, eb, l, (d1 - 1) as nat);
        lemma_precheck_limit_nonincreasing(ea, eb, l, (d1 - 1) as nat);
        if c.0 is Equiv {
            lemma_precheck_edges_depth_irrelevant(a, b, i + 1, k, c.1, d1, d2);
        }
    }
}

/// When the precheck phase finds `a` and `b` equivalent, with a depth bound
/// that does not cut it short, no unfolding of their edges tells them apart.
pub proof fn lemma_precheck_equiv_not_distinguishable<N: Node>(
    a: N,
    b: N,
    limit: int,
    depth: nat,
    d: nat,
)
    requires
        i32::MIN <= limit,
        limit <= depth,
        precheck_outcome(a, b, limit, depth).0 is Equiv,
    ensures
        !differ_within(a, b, d),
    decreases depth, 1nat, 0int,
{
    if a.spec_id() != b.spec_id() {
        match a.spec_descend_amount(&b) {
            None => {},
            Some(k) => {
                if k != 0 {
                    lemma_precheck_edges_equiv_not_distinguishable(a, b, 0, k as nat, limit, depth, (d - 1) as nat);
                    if d > 0 {
                        assert forall|i: int| 0 <= i < k implies !differ_within(
                            #[trigger] a.spec_edge(i),
                            b.spec_edge(i),
                            (d - 1) as nat,
                        ) by {}
                    }
                }
            },
        }
    }
}

/// When the precheck phase over descendents `i .. k` finds them all equivalent,
/// none of those pairs is told apart.
pub proof fn lemma_precheck_edges_equiv_not_distinguishable<N: Node>(
    a: N,
    b: N,
    i: nat,
    k: nat,
    limit: int,
    depth: nat,
    d: nat,
)
    requires
        i32::MIN <= limit,
        limit <= depth,
        depth > 0,
        precheck_edges(a, b, i, k, limit, depth).0 is Equiv,
    ensures
        forall|j: int| i <= j < k ==> !differ_within(#[trigger] a.spec_edge(j), b.spec_edge(j), d),
    decreases depth, 0nat, k - i,
{
    if i < k {
        let ea = a.spec_edge(i as int);
        let eb = b.spec_edge(i as int);
        let l = saturating_dec(limit);
        let c = precheck_outcome(ea, eb, l, (depth - 1) as nat);
        lemma_precheck_equiv_not_distinguishable(ea, eb, l, (depth - 1) as nat, d);
        lemma_precheck_limit_nonincreasing(ea, eb, l, (depth - 1) as nat);
        lemma_precheck_edges_equiv_not_distinguishable(a, b, i + 1, k, c.1, depth, d);
    }
}

} // verus!
