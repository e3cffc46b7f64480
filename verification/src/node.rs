//! What the equivalence algorithm needs from a node type, and the relations
//! between nodes that its results are stated in.

use std::hash::Hash;
use vstd::prelude::*;

verus! {

/// What the main equivalence algorithm needs from a type.
///
/// The spec functions are the model of a node that the contracts speak of; each
/// executable method must return what its spec function says.  An
/// implementation verified with Verus defines them; their defaults leave them
/// unspecified, and code generic over the trait never relies on a default.
/// Descendents have the node type itself.
pub trait Node: Sized {
    /// Determines when nodes are the same identical node and so can immediately
    /// be considered equivalent without checking their values, edges, nor
    /// descendents.
    type Id: Eq + Hash + Clone;

    /// The identity of the node.
    open spec fn spec_id(&self) -> Self::Id {
        arbitrary()
    }

    /// How many edges the node has.
    open spec fn spec_amount_edges(&self) -> nat {
        arbitrary()
    }

    /// The descendent at `index`, for `index < spec_amount_edges()`.
    open spec fn spec_edge(&self, index: int) -> Self {
        arbitrary()
    }

    /// Whether the nodes are equivalent in their own values, ignoring edges.
    open spec fn spec_equiv_modulo_edges(&self, other: &Self) -> bool {
        arbitrary()
    }

    /// The amount of edges to descend when comparing with `other`, or `None`
    /// when the nodes are unequivalent by themselves.
    open spec fn spec_descend_amount(&self, other: &Self) -> Option<usize> {
        arbitrary()
    }

    /// Get the identity of the `self` node.
    fn id(&self) -> (id: Self::Id)
        ensures
            id == self.spec_id(),
    ;

    /// How many edges the `self` node has that the algorithm will descend into
    /// and check.
    fn amount_edges(&self) -> (amount: usize)
        ensures
            amount == self.spec_amount_edges(),
    ;

    /// Get descendent node by index, which must be below the amount of edges.
    fn get_edge(&self, index: usize) -> (edge: Self)
        requires
            index < self.spec_amount_edges(),
        ensures
            edge == self.spec_edge(index as int),
    ;

    /// Check if the nodes are equivalent in their own directly-contained
    /// semantically-significant values ignoring their edges and ignoring their
    /// descendent nodes.
    fn equiv_modulo_edges(&self, other: &Self) -> (equiv: bool)
        ensures
            equiv == self.spec_equiv_modulo_edges(other),
    ;

    /// Check if the nodes are equivalent in their own values and if their
    /// amounts of edges are similar enough that their descendents need checking;
    /// if so, return the amount of edges to descend, else `None`.  A `Some`
    /// result is at most the amount of edges of either node, and only comes when
    /// [`Self::equiv_modulo_edges`] holds.  [`default_descend_amount`] is the
    /// usual implementation.
    fn equiv_modulo_descendents_then_amount_edges(&self, other: &Self) -> (amount: Option<usize>)
        ensures
            amount == self.spec_descend_amount(other),
            amount matches Some(k) ==> {
                &&& k <= self.spec_amount_edges()
                &&& k <= other.spec_amount_edges()
                &&& self.spec_equiv_modulo_edges(other)
            },
    ;
}

/// The usual descend amount: all the edges, when both nodes have the same amount
/// of edges and are equivalent modulo edges.
pub open spec fn spec_default_descend_amount<N: Node>(a: &N, b: &N) -> Option<usize> {
    if a.spec_amount_edges() == b.spec_amount_edges() && a.spec_equiv_modulo_edges(b) {
        Some(a.spec_amount_edges() as usize)
    } else {
        None
    }
}

/// The usual descend amount descends all the edges: it is some amount exactly
/// when both nodes have the same amount of edges and are equivalent modulo
/// edges, and then that amount is the amount of edges of either node.
pub proof fn lemma_default_descend_amount_all_edges<N: Node>(a: &N, b: &N)
    requires
        a.spec_amount_edges() <= usize::MAX,
    ensures
        spec_default_descend_amount(a, b) is Some <==> a.spec_amount_edges() == b.spec_amount_edges()
            && a.spec_equiv_modulo_edges(b),
        spec_default_descend_amount(a, b) matches Some(k) ==> k == a.spec_amount_edges() && k
            == b.spec_amount_edges(),
{
}

/// Checks that `a.amount_edges() == b.amount_edges()` and
/// `a.equiv_modulo_edges(b)`, in that order, and, when both hold, returns the
/// amount of edges.  This is the implementation of
/// [`Node::equiv_modulo_descendents_then_amount_edges`] for types where the
/// amount of edges is the cheaper check, where nodes with different amounts of
/// edges are unequivalent, and where all edges are descended.
pub fn default_descend_amount<N: Node>(a: &N, b: &N) -> (amount: Option<usize>)
    ensures
        amount == spec_default_descend_amount(a, b),
        amount is Some <==> a.spec_amount_edges() == b.spec_amount_edges() && a.spec_equiv_modulo_edges(b),
        amount matches Some(k) ==> k == a.spec_amount_edges() && k == b.spec_amount_edges(),
{
    let az = a.amount_edges();
    let bz = b.amount_edges();
    if az == bz && a.equiv_modulo_edges(b) {
        Some(az)
    } else {
        None
    }
}

/// `a` and `b` are told apart within `depth` levels: their identities differ and
/// either they are unequivalent by themselves, or some pair of descendents at the
/// same index is told apart within one level less.
pub open spec fn differ_within<N: Node>(a: N, b: N, depth: nat) -> bool
    decreases depth,
{
    &&& a.spec_id() != b.spec_id()
    &&& match a.spec_descend_amount(&b) {
        None => true,
        Some(k) => depth > 0 && exists|i: int|
            0 <= i < k && differ_within(#[trigger] a.spec_edge(i), b.spec_edge(i), (depth - 1) as nat),
    }
}

/// `a` and `b` are told apart by some finite unfolding of their edges.
pub open spec fn distinguishable<N: Node>(a: N, b: N) -> bool {
    exists|depth: nat| differ_within(a, b, depth)
}

/// `a` and `b` agree within `depth` levels, taking as agreeing the pairs of
/// identities that `assumed` holds of: their identities are equal, or they are
/// equivalent by themselves and either have nothing to descend, are assumed to
/// agree, or (within a further level) all their descendents to compare agree
/// within one level less.
pub open spec fn agree_within<N: Node>(
    a: N,
    b: N,
    depth: nat,
    assumed: spec_fn(N::Id, N::Id) -> bool,
) -> bool
    decreases depth,
{
    ||| a.spec_id() == b.spec_id()
    ||| match a.spec_descend_amount(&b) {
        None => false,
        Some(k) => {
            ||| k == 0
            ||| assumed(a.spec_id(), b.spec_id())
            ||| depth > 0 && forall|i: int|
                0 <= i < k ==> agree_within(
                    #[trigger] a.spec_edge(i),
                    b.spec_edge(i),
                    (depth - 1) as nat,
                    assumed,
                )
        },
    }
}

/// A comparison of `a` and `b` can descend `n` levels: for `n > 0`, their
/// identities differ, they have edges to descend, and some pair of descendents
/// to compare can descend `n - 1` levels.  On acyclic graphs this bounds `n` by
/// their depth; cycles allow every `n`.
pub open spec fn long_descent<N: Node>(a: N, b: N, n: nat) -> bool
    decreases n,
{
    n == 0 || {
        &&& a.spec_id() != b.spec_id()
        &&& match a.spec_descend_amount(&b) {
            None => false,
            Some(k) => exists|i: int|
                0 <= i < k && long_descent(#[trigger] a.spec_edge(i), b.spec_edge(i), (n - 1) as nat),
        }
    }
}

/// Agreement survives more assumptions.
pub proof fn lemma_agree_more_assumed<N: Node>(
    a: N,
    b: N,
    depth: nat,
    assumed1: spec_fn(N::Id, N::Id) -> bool,
    assumed2: spec_fn(N::Id, N::Id) -> bool,
)
    requires
        agree_within(a, b, depth, assumed1),
        forall|x: N::Id, y: N::Id| #[trigger] assumed1(x, y) ==> assumed2(x, y),
    ensures
        agree_within(a, b, depth, assumed2),
    decreases depth,
{
    let amount = a.spec_descend_amount(&b);
    if a.spec_id() != b.spec_id() && amount is Some {
        let k = amount->Some_0;
        if k != 0 && !assumed1(a.spec_id(), b.spec_id()) && depth != 0 {
            assert forall|i: int| 0 <= i < k implies agree_within(
                #[trigger] a.spec_edge(i),
                b.spec_edge(i),
                (depth - 1) as nat,
                assumed2,
            ) by {
                lemma_agree_more_assumed(
                    a.spec_edge(i),
                    b.spec_edge(i),
                    (depth - 1) as nat,
                    assumed1,
                    assumed2,
                );
            }
        }
    }
}

} // verus!
