//! Why an `Equiv` answer of the interleaving is sound.
//!
//! The slow phases take pairs as equivalent once their identities are in one
//! class; that is sound only where identities name single nodes and the descend
//! amount behaves like an equivalence.  Under those laws, among the nodes
//! reachable from the compared ones, the pairs that are merged and then checked
//! generate an equivalence under which no checked pair, and no pair agreeing
//! modulo it, can be told apart.

use vstd::prelude::*;
use crate::node::{agree_within, differ_within, lemma_agree_more_assumed, Node};

verus! {

/// `x` is reached from `s` along exactly `n` edges.
pub open spec fn reaches_in<N: Node>(s: N, x: N, n: nat) -> bool
    decreases n,
{
    if n == 0 {
        s == x
    } else {
        exists|i: int| 0 <= i < s.spec_amount_edges() && reaches_in(#[trigger] s.spec_edge(i), x, (n - 1) as nat)
    }
}

/// The nodes reachable from `a` or from `b`.
pub open spec fn reachable_from<N: Node>(a: N, b: N) -> spec_fn(N) -> bool {
    |x: N| exists|n: nat| reaches_in(a, x, n) || reaches_in(b, x, n)
}

/// The descendents of nodes in `within` are in `within`.
pub open spec fn closed_under_edges<N: Node>(within: spec_fn(N) -> bool) -> bool {
    forall|x: N, i: int| within(x) && 0 <= i < x.spec_amount_edges() ==> #[trigger] within(#[trigger] x.spec_edge(i))
}

/// The laws of a node type, among the nodes in `within`, under which taking
/// merged pairs as equivalent is sound: identities name single nodes; the
/// descend amount is at most the amount of edges of either node, does not depend
/// on the order of the nodes, and is transitive, descending no more edges than
/// either comparison it follows from.  The usual descend amount, over an
/// `equiv_modulo_edges` that is an equivalence, meets the last three.
pub open spec fn node_laws<N: Node>(within: spec_fn(N) -> bool) -> bool {
    &&& forall|x: N, y: N|
        #![trigger x.spec_id(), y.spec_id()]
        within(x) && within(y) && x.spec_id() == y.spec_id() ==> x == y
    &&& forall|x: N, y: N|
        within(x) && within(y) && #[trigger] x.spec_descend_amount(&y) is Some ==> {
            &&& x.spec_descend_amount(&y)->Some_0 <= x.spec_amount_edges()
            &&& x.spec_descend_amount(&y)->Some_0 <= y.spec_amount_edges()
        }
    &&& forall|x: N, y: N|
        within(x) && within(y) ==> #[trigger] x.spec_descend_amount(&y) == y.spec_descend_amount(&x)
    &&& forall|x: N, y: N, z: N|
        #![trigger x.spec_descend_amount(&y), y.spec_descend_amount(&z)]
        within(x) && within(y) && within(z) && x.spec_descend_amount(&y) is Some && y.spec_descend_amount(&z) is Some ==> {
            &&& x.spec_descend_amount(&z) is Some
            &&& x.spec_descend_amount(&z)->Some_0 <= x.spec_descend_amount(&y)->Some_0
            &&& x.spec_descend_amount(&z)->Some_0 <= y.spec_descend_amount(&z)->Some_0
        }
}

/// `q` is an equivalence relation.
pub open spec fn is_equivalence<K>(q: spec_fn(K, K) -> bool) -> bool {
    &&& forall|u: K| #[trigger] q(u, u)
    &&& forall|u: K, v: K| #[trigger] q(u, v) ==> q(v, u)
    &&& forall|u: K, v: K, w: K| #[trigger] q(u, v) && #[trigger] q(v, w) ==> q(u, w)
}

/// `assumed` lies within the equivalence on identities that the pairs generate:
/// every equivalence that relates the identities of each pair relates what
/// `assumed` relates.
pub open spec fn within_generated<N: Node>(
    assumed: spec_fn(N::Id, N::Id) -> bool,
    pairs: Set<(N, N)>,
) -> bool {
    forall|q: spec_fn(N::Id, N::Id) -> bool|
        #[trigger] is_equivalence(q) && (forall|p: (N, N)|
            #[trigger] pairs.contains(p) ==> q(p.0.spec_id(), p.1.spec_id())) ==> forall|u: N::Id, v: N::Id|
            #[trigger] assumed(u, v) ==> q(u, v)
}

/// Pair `(x, y)` has been checked: their identities differ, they are equivalent
/// by themselves, and all their descendents to compare agree modulo `assumed`.
pub open spec fn checked_pair<N: Node>(x: N, y: N, assumed: spec_fn(N::Id, N::Id) -> bool) -> bool {
    &&& x.spec_id() != y.spec_id()
    &&& x.spec_descend_amount(&y) is Some
    &&& forall|i: int|
        0 <= i < x.spec_descend_amount(&y)->Some_0 ==> agree_within(
            #[trigger] x.spec_edge(i),
            y.spec_edge(i),
            usize::MAX as nat,
            assumed,
        )
}

/// All pairs have been checked.
pub open spec fn all_checked<N: Node>(pairs: Set<(N, N)>, assumed: spec_fn(N::Id, N::Id) -> bool) -> bool {
    forall|p: (N, N)| #[trigger] pairs.contains(p) ==> checked_pair(p.0, p.1, assumed)
}

/// Both nodes of every pair are in `within`.
pub open spec fn pairs_within<N: Node>(pairs: Set<(N, N)>, within: spec_fn(N) -> bool) -> bool {
    forall|p: (N, N)| #[trigger] pairs.contains(p) ==> within(p.0) && within(p.1)
}

/// Identities `u` and `v` are equal, or name nodes in `within` that no unfolding
/// of `d` levels tells apart.
pub open spec fn undistinguished_at<N: Node>(within: spec_fn(N) -> bool, d: nat) -> spec_fn(N::Id, N::Id) -> bool {
    |u: N::Id, v: N::Id|
        u == v || ((exists|x: N| within(x) && #[trigger] x.spec_id() == u) && (exists|y: N|
            within(y) && #[trigger] y.spec_id() == v) && forall|x: N, y: N|
            #![trigger x.spec_id(), y.spec_id()]
            within(x) && within(y) && x.spec_id() == u && y.spec_id() == v ==> !differ_within(x, y, d))
}

/// A node reachable from `s` has its descendents reachable from `s`.
proof fn lemma_reaches_edge<N: Node>(s: N, x: N, n: nat, i: int)
    requires
        reaches_in(s, x, n),
        0 <= i < x.spec_amount_edges(),
    ensures
        reaches_in(s, x.spec_edge(i), n + 1),
    decreases n,
{
    if n == 0 {
        assert(reaches_in(s.spec_edge(i), x.spec_edge(i), 0));
    } else {
        let j = choose|j: int| 0 <= j < s.spec_amount_edges() && reaches_in(#[trigger] s.spec_edge(j), x, (n - 1) as nat);
        lemma_reaches_edge(s.spec_edge(j), x, (n - 1) as nat, i);
        assert(reaches_in(s.spec_edge(j), x.spec_edge(i), n));
    }
}

/// The nodes reachable from `a` or `b` include them and their descendents.
pub proof fn lemma_reachable_closed<N: Node>(a: N, b: N)
    ensures
        closed_under_edges(reachable_from(a, b)),
        (reachable_from(a, b))(a),
        (reachable_from(a, b))(b),
{
    let within = reachable_from(a, b);
    assert(reaches_in(a, a, 0));
    assert(reaches_in(b, b, 0));
    assert forall|x: N, i: int| within(x) && 0 <= i < x.spec_amount_edges() implies #[trigger] within(
        #[trigger] x.spec_edge(i),
    ) by {
        let n = choose|n: nat| reaches_in(a, x, n) || reaches_in(b, x, n);
        if reaches_in(a, x, n) {
            lemma_reaches_edge(a, x, n, i);
        } else {
            lemma_reaches_edge(b, x, n, i);
        }
    }
}

/// A set closed under edges that holds `s` holds every node reachable from `s`.
proof fn lemma_reaches_in_within<N: Node>(within: spec_fn(N) -> bool, s: N, x: N, n: nat)
    requires
        closed_under_edges(within),
        within(s),
        reaches_in(s, x, n),
    ensures
        within(x),
    decreases n,
{
    if n > 0 {
        let i = choose|i: int| 0 <= i < s.spec_amount_edges() && reaches_in(#[trigger] s.spec_edge(i), x, (n - 1) as nat);
        assert(within(s.spec_edge(i)));
        lemma_reaches_in_within(within, s.spec_edge(i), x, (n - 1) as nat);
    }
}

/// The nodes reachable from `a` and `b` lie in every set closed under edges that
/// holds both, and so meet the node laws wherever that set does.
pub proof fn lemma_reachable_within<N: Node>(within: spec_fn(N) -> bool, a: N, b: N)
    requires
        closed_under_edges(within),
        within(a),
        within(b),
    ensures
        forall|x: N| #[trigger] (reachable_from(a, b))(x) ==> within(x),
        node_laws(within) ==> node_laws(reachable_from(a, b)),
{
    let r = reachable_from(a, b);
    assert forall|x: N| #[trigger] r(x) implies within(x) by {
        let n = choose|n: nat| reaches_in(a, x, n) || reaches_in(b, x, n);
        if reaches_in(a, x, n) {
            lemma_reaches_in_within(within, a, x, n);
        } else {
            lemma_reaches_in_within(within, b, x, n);
        }
    }
}

/// A pair told apart within `d1` levels is told apart within more levels.
pub proof fn lemma_differ_deeper<N: Node>(a: N, b: N, d1: nat, d2: nat)
    requires
        differ_within(a, b, d1),
        d1 <= d2,
    ensures
        differ_within(a, b, d2),
    decreases d1,
{
    let amount = a.spec_descend_amount(&b);
    if amount is Some {
        let k = amount->Some_0;
        let i = choose|i: int|
            0 <= i < k && differ_within(#[trigger] a.spec_edge(i), b.spec_edge(i), (d1 - 1) as nat);
        lemma_differ_deeper(a.spec_edge(i), b.spec_edge(i), (d1 - 1) as nat, (d2 - 1) as nat);
    }
}

/// Telling apart does not depend on the order of the nodes.
pub proof fn lemma_differ_symmetric<N: Node>(within: spec_fn(N) -> bool, x: N, y: N, d: nat)
    requires
        node_laws(within),
        closed_under_edges(within),
        within(x),
        within(y),
        differ_within(x, y, d),
    ensures
        differ_within(y, x, d),
    decreases d,
{
    let amount = x.spec_descend_amount(&y);
    assert(y.spec_descend_amount(&x) == amount);
    if amount is Some {
        let k = amount->Some_0;
        let i = choose|i: int|
            0 <= i < k && differ_within(#[trigger] x.spec_edge(i), y.spec_edge(i), (d - 1) as nat);
        assert(within(x.spec_edge(i)));
        assert(within(y.spec_edge(i)));
        lemma_differ_symmetric(within, x.spec_edge(i), y.spec_edge(i), (d - 1) as nat);
        assert(differ_within(y.spec_edge(i), x.spec_edge(i), (d - 1) as nat));
    }
}

/// When `x` and `z` are told apart, a third node is told apart from one of them.
pub proof fn lemma_differ_split<N: Node>(within: spec_fn(N) -> bool, x: N, y: N, z: N, d: nat)
    requires
        node_laws(within),
        closed_under_edges(within),
        within(x),
        within(y),
        within(z),
        differ_within(x, z, d),
    ensures
        differ_within(x, y, d) || differ_within(y, z, d),
    decreases d,
{
    if x.spec_id() == y.spec_id() {
        assert(x == y);
    } else if y.spec_id() == z.spec_id() {
        assert(y == z);
    } else {
        let a1 = x.spec_descend_amount(&y);
        let a2 = y.spec_descend_amount(&z);
        if a1 is Some && a2 is Some {
            let a3 = x.spec_descend_amount(&z);
            let k3 = a3->Some_0;
            let i = choose|i: int|
                0 <= i < k3 && differ_within(#[trigger] x.spec_edge(i), z.spec_edge(i), (d - 1) as nat);
            assert(within(x.spec_edge(i)));
            assert(within(y.spec_edge(i)));
            assert(within(z.spec_edge(i)));
            lemma_differ_split(within, x.spec_edge(i), y.spec_edge(i), z.spec_edge(i), (d - 1) as nat);
            assert(differ_within(x.spec_edge(i), y.spec_edge(i), (d - 1) as nat) || differ_within(
                y.spec_edge(i),
                z.spec_edge(i),
                (d - 1) as nat,
            ));
        }
    }
}

/// Agreement within some levels implies agreement within more levels.
pub proof fn lemma_agree_deeper<N: Node>(
    a: N,
    b: N,
    d1: nat,
    d2: nat,
    assumed: spec_fn(N::Id, N::Id) -> bool,
)
    requires
        agree_within(a, b, d1, assumed),
        d1 <= d2,
    ensures
        agree_within(a, b, d2, assumed),
    decreases d1,
{
    let amount = a.spec_descend_amount(&b);
    if a.spec_id() != b.spec_id() && amount is Some {
        let k = amount->Some_0;
        if k != 0 && !assumed(a.spec_id(), b.spec_id()) {
            assert forall|i: int| 0 <= i < k implies agree_within(
                #[trigger] a.spec_edge(i),
                b.spec_edge(i),
                (d2 - 1) as nat,
                assumed,
            ) by {
                lemma_agree_deeper(a.spec_edge(i), b.spec_edge(i), (d1 - 1) as nat, (d2 - 1) as nat, assumed);
            }
        }
    }
}

/// Under the node laws, `undistinguished_at(within, d)` is an equivalence
/// relation.
pub proof fn lemma_undistinguished_equivalence<N: Node>(within: spec_fn(N) -> bool, d: nat)
    requires
        node_laws(within),
        closed_under_edges(within),
    ensures
        is_equivalence(undistinguished_at(within, d)),
{
    let q = undistinguished_at(within, d);
    assert forall|u: N::Id, v: N::Id| #[trigger] q(u, v) implies q(v, u) by {
        if u != v {
            assert forall|x: N, y: N|
                within(x) && within(y) && x.spec_id() == v && y.spec_id() == u implies !differ_within(x, y, d) by {
                if differ_within(x, y, d) {
                    lemma_differ_symmetric(within, x, y, d);
                }
            }
        }
    }
    assert forall|u: N::Id, v: N::Id, w: N::Id| #[trigger] q(u, v) && #[trigger] q(v, w) implies q(u, w) by {
        if u != v && v != w && u != w {
            let y = choose|y: N| within(y) && #[trigger] y.spec_id() == v;
            assert forall|x: N, z: N|
                within(x) && within(z) && x.spec_id() == u && z.spec_id() == w implies !differ_within(x, z, d) by {
                if differ_within(x, z, d) {
                    lemma_differ_split(within, x, y, z, d);
                }
            }
        }
    }
}

/// A pair that agrees modulo identities that no unfolding of `d` levels tells
/// apart is not told apart within `d` levels either.
pub proof fn lemma_agree_undistinguished<N: Node>(
    within: spec_fn(N) -> bool,
    p: N,
    q: N,
    depth: nat,
    assumed: spec_fn(N::Id, N::Id) -> bool,
    d: nat,
)
    requires
        node_laws(within),
        closed_under_edges(within),
        within(p),
        within(q),
        agree_within(p, q, depth, assumed),
        forall|u: N::Id, v: N::Id| #[trigger] assumed(u, v) ==> (undistinguished_at(within, d))(u, v),
    ensures
        !differ_within(p, q, d),
    decreases d,
{
    let amount = p.spec_descend_amount(&q);
    if p.spec_id() != q.spec_id() && amount is Some && d > 0 {
        let k = amount->Some_0;
        if assumed(p.spec_id(), q.spec_id()) {
            assert((undistinguished_at(within, d))(p.spec_id(), q.spec_id()));
        } else if k != 0 {
            assert forall|u: N::Id, v: N::Id| #[trigger] assumed(u, v) implies (undistinguished_at(
                within,
                (d - 1) as nat,
            ))(u, v) by {
                assert((undistinguished_at(within, d))(u, v));
                if u != v {
                    assert forall|x: N, y: N|
                        within(x) && within(y) && x.spec_id() == u && y.spec_id() == v implies !differ_within(
                        x,
                        y,
                        (d - 1) as nat,
                    ) by {
                        if differ_within(x, y, (d - 1) as nat) {
                            lemma_differ_deeper(x, y, (d - 1) as nat, d);
                        }
                    }
                }
            }
            assert forall|i: int| 0 <= i < k implies !differ_within(
                #[trigger] p.spec_edge(i),
                q.spec_edge(i),
                (d - 1) as nat,
            ) by {
                assert(within(p.spec_edge(i)));
                assert(within(q.spec_edge(i)));
                lemma_agree_undistinguished(
                    within,
                    p.spec_edge(i),
                    q.spec_edge(i),
                    (depth - 1) as nat,
                    assumed,
                    (d - 1) as nat,
                );
            }
        }
    }
}

/// Under the node laws, when `assumed` lies within the equivalence generated by
/// pairs that have all been checked modulo `assumed`, no pair that `assumed`
/// relates, and no checked pair, is told apart within `d` levels.
pub proof fn lemma_checked_pairs_undistinguished<N: Node>(
    within: spec_fn(N) -> bool,
    pairs: Set<(N, N)>,
    assumed: spec_fn(N::Id, N::Id) -> bool,
    d: nat,
)
    requires
        node_laws(within),
        closed_under_edges(within),
        pairs_within(pairs, within),
        within_generated(assumed, pairs),
        all_checked(pairs, assumed),
    ensures
        forall|u: N::Id, v: N::Id| #[trigger] assumed(u, v) ==> (undistinguished_at(within, d))(u, v),
        forall|p: (N, N)| #[trigger] pairs.contains(p) ==> !differ_within(p.0, p.1, d),
    decreases d,
{
    if d > 0 {
        lemma_checked_pairs_undistinguished(within, pairs, assumed, (d - 1) as nat);
    }
    assert forall|p: (N, N)| #[trigger] pairs.contains(p) implies !differ_within(p.0, p.1, d) by {
        assert(checked_pair(p.0, p.1, assumed));
        if d > 0 {
            let k = p.0.spec_descend_amount(&p.1)->Some_0;
            assert forall|i: int| 0 <= i < k implies !differ_within(
                #[trigger] p.0.spec_edge(i),
                p.1.spec_edge(i),
                (d - 1) as nat,
            ) by {
                assert(within(p.0.spec_edge(i)));
                assert(within(p.1.spec_edge(i)));
                lemma_agree_undistinguished(
                    within,
                    p.0.spec_edge(i),
                    p.1.spec_edge(i),
                    usize::MAX as nat,
                    assumed,
                    (d - 1) as nat,
                );
            }
        }
    }
    let q = undistinguished_at(within, d);
    lemma_undistinguished_equivalence(within, d);
    assert forall|p: (N, N)| #[trigger] pairs.contains(p) implies q(p.0.spec_id(), p.1.spec_id()) by {
        assert(within(p.0) && p.0.spec_id() == p.0.spec_id());
        assert(within(p.1) && p.1.spec_id() == p.1.spec_id());
        assert forall|x: N, y: N|
            within(x) && within(y) && x.spec_id() == p.0.spec_id() && y.spec_id() == p.1.spec_id() implies !differ_within(
            x,
            y,
            d,
        ) by {
            assert(x == p.0);
            assert(y == p.1);
        }
    }
}

/// Merging the classes of `x` and `y` keeps the assumed pairs within the
/// equivalence generated by the pairs and `(x, y)`.
pub proof fn lemma_within_generated_merge<N: Node>(
    r0: spec_fn(N::Id, N::Id) -> bool,
    r1: spec_fn(N::Id, N::Id) -> bool,
    pairs: Set<(N, N)>,
    x: N,
    y: N,
)
    requires
        within_generated(r0, pairs),
        forall|u: N::Id, v: N::Id|
            #[trigger] r1(u, v) ==> {
                ||| r0(u, v) || u == v
                ||| (r0(u, x.spec_id()) || u == x.spec_id()) && (r0(y.spec_id(), v) || y.spec_id() == v)
                ||| (r0(u, y.spec_id()) || u == y.spec_id()) && (r0(x.spec_id(), v) || x.spec_id() == v)
            },
    ensures
        within_generated(r1, pairs.insert((x, y))),
{
    let all = pairs.insert((x, y));
    assert forall|q: spec_fn(N::Id, N::Id) -> bool|
        #[trigger] is_equivalence(q) && (forall|p: (N, N)|
            #[trigger] all.contains(p) ==> q(p.0.spec_id(), p.1.spec_id())) implies forall|u: N::Id, v: N::Id|
        #[trigger] r1(u, v) ==> q(u, v) by {
        assert forall|p: (N, N)| #[trigger] pairs.contains(p) implies q(p.0.spec_id(), p.1.spec_id()) by {
            assert(all.contains(p));
        }
        assert(all.contains((x, y)));
        let a = x.spec_id();
        let b = y.spec_id();
        assert(q(a, b));
        assert forall|u: N::Id, v: N::Id| #[trigger] r1(u, v) implies q(u, v) by {
            assert(q(u, u));
            assert(q(v, v));
            assert(q(a, a));
            assert(q(b, b));
            if r0(u, a) {
                assert(q(u, a));
            }
            if r0(b, v) {
                assert(q(b, v));
            }
            if r0(u, b) {
                assert(q(u, b));
            }
            if r0(a, v) {
                assert(q(a, v));
            }
            if r0(u, v) {
                assert(q(u, v));
            }
            assert(q(b, a));
        }
    }
}

/// Checked pairs stay checked under more assumptions.
pub proof fn lemma_all_checked_more_assumed<N: Node>(
    pairs: Set<(N, N)>,
    r0: spec_fn(N::Id, N::Id) -> bool,
    r1: spec_fn(N::Id, N::Id) -> bool,
)
    requires
        all_checked(pairs, r0),
        forall|u: N::Id, v: N::Id| #[trigger] r0(u, v) ==> r1(u, v),
    ensures
        all_checked(pairs, r1),
{
    assert forall|p: (N, N)| #[trigger] pairs.contains(p) implies checked_pair(p.0, p.1, r1) by {
        assert(checked_pair(p.0, p.1, r0));
        let k = p.0.spec_descend_amount(&p.1)->Some_0;
        assert forall|i: int| 0 <= i < k implies agree_within(
            #[trigger] p.0.spec_edge(i),
            p.1.spec_edge(i),
            usize::MAX as nat,
            r1,
        ) by {
            lemma_agree_more_assumed(p.0.spec_edge(i), p.1.spec_edge(i), usize::MAX as nat, r0, r1);
        }
    }
}

/// Under the node laws among the nodes reachable from `a` and `b`, when `a` and
/// `b` agree modulo assumptions that lie within the equivalence generated by
/// checked pairs of reachable nodes, no unfolding tells `a` and `b` apart.
pub proof fn lemma_agree_checked_not_distinguishable<N: Node>(
    a: N,
    b: N,
    depth: nat,
    pairs: Set<(N, N)>,
    assumed: spec_fn(N::Id, N::Id) -> bool,
    d: nat,
)
    requires
        node_laws(reachable_from(a, b)),
        pairs_within(pairs, reachable_from(a, b)),
        within_generated(assumed, pairs),
        all_checked(pairs, assumed),
        agree_within(a, b, depth, assumed),
    ensures
        !differ_within(a, b, d),
{
    let within = reachable_from(a, b);
    lemma_reachable_closed(a, b);
    lemma_checked_pairs_undistinguished(within, pairs, assumed, d);
    lemma_agree_undistinguished(within, a, b, depth, assumed, d);
}

} // verus!
