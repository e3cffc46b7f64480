//! The equivalence algorithm: a bounded precheck, then an interleaving of fast
//! unchecked descents with slow descents that record equivalence classes.

use std::hash::Hash;
use vstd::prelude::*;
use vstd::laws_eq::obeys_concrete_eq;
use vstd::std_specs::hash::obeys_key_model;
use crate::classes::{lemma_same_class_true, EquivClasses};
use crate::sound::{
    all_checked, checked_pair, closed_under_edges, is_equivalence, lemma_agree_checked_not_distinguishable,
    lemma_agree_deeper, lemma_all_checked_more_assumed, lemma_differ_split, lemma_differ_symmetric,
    lemma_reachable_closed, lemma_reachable_within, lemma_within_generated_merge, node_laws, pairs_within,
    reachable_from, within_generated,
};
use crate::node::{agree_within, differ_within, distinguishable, lemma_agree_more_assumed, long_descent, Node};
use crate::precheck::{
    edges_stop_at_once, lemma_precheck_equiv_not_distinguishable, lemma_precheck_limit_checked_on_entry,
    precheck_edges, precheck_outcome, saturating_dec, saturating_sub,
};

verus! {

/// The limit of the precheck phase.
pub const PRE_LIMIT: u16 = 400;

/// The largest limit of a "fast" phase.
pub const FAST_LIMIT: u16 = 2 * PRE_LIMIT;

/// How many descents a "slow" phase lasts.
pub const SLOW_LIMIT: u16 = PRE_LIMIT / 10;

/// The limit at which a "slow" phase ends.
pub const SLOW_LIMIT_NEG: i32 = -(SLOW_LIMIT as i32);

/// Whether to descend into the edges of two nodes.
pub enum DoDescend {
    Yes,
    NoContinue,
    NoAbort,
}

/// The result of comparing two nodes.
#[derive(Clone, Copy, PartialEq, Eq, Structural, Debug)]
pub enum EquivResult {
    Unequiv,
    Abort,
    Equiv,
}

/// How descents are decided.
pub enum Control<K> {
    /// Descend while the limit is positive; abort once it is not.
    Precheck,
    /// Descend freely while the limit is not negative ("fast"); below that,
    /// descend only into pairs not yet in one class ("slow"); when the slow phase
    /// runs out, start a fast phase with a random limit.
    Interleave(EquivClasses<K>),
}

/// The state of a comparison.
pub struct Equiv<K> {
    pub limit: i32,
    pub state: Control<K>,
}

impl<K: Eq + Hash> Equiv<K> {
    /// The invariant of the state.
    pub open spec fn wf(&self) -> bool {
        match self.state {
            Control::Precheck => true,
            Control::Interleave(classes) => classes.wf(),
        }
    }

    /// The pairs of identities that this state takes as equivalent without
    /// descending: none for the precheck, the pairs put in one class for the
    /// interleaving.
    pub open spec fn assumed(&self) -> spec_fn(K, K) -> bool {
        match self.state {
            Control::Precheck => |x: K, y: K| false,
            Control::Interleave(classes) => |x: K, y: K| classes.related(x, y),
        }
    }

    /// Whether a comparison of `a` and `b` from this state starts with a class
    /// check: the interleaving is in a slow phase, the identities differ, and
    /// there are edges to descend into.
    pub open spec fn checks_classes<N: Node<Id = K>>(&self, a: N, b: N) -> bool {
        &&& self.state is Interleave
        &&& SLOW_LIMIT_NEG <= self.limit < 0
        &&& a.spec_id() != b.spec_id()
        &&& a.spec_descend_amount(&b) matches Some(k) && k > 0
    }

    /// What a comparison of `a` and `b` that starts with a class check does,
    /// from state `old` to state `new` with result `r`: the identities end in one
    /// class, and when they shared a representative already, the comparison
    /// answers `Equiv` at once, without descending, and restarts the phase.
    pub open spec fn class_check_post<N: Node<Id = K>>(old: Self, new: Self, a: N, b: N, r: EquivResult) -> bool {
        &&& new.state is Interleave
        &&& (new.assumed())(a.spec_id(), b.spec_id())
        &&& old.state->Interleave_0.same_rep(a.spec_id(), b.spec_id()) ==> {
            &&& r is Equiv
            &&& new.limit == 0
            &&& EquivClasses::same_class_post(
                old.state->Interleave_0,
                new.state->Interleave_0,
                a.spec_id(),
                b.spec_id(),
                true,
            )
        }
    }

    /// What the next call needs of the identity type: that `==` on it is the
    /// equality of values, and for the interleaving that it is a well-behaved
    /// hash-table key.  vstd establishes both for the integer types and `bool`.
    pub open spec fn ids_ok(&self) -> bool {
        &&& obeys_concrete_eq::<K>()
        &&& self.state is Interleave ==> obeys_key_model::<K>()
    }

    /// Decides whether to descend into the edges of `a` and `b`.
    fn do_descend<N: Node<Id = K>>(&mut self, a: &N, b: &N) -> (d: DoDescend)
        requires
            old(self).wf(),
            old(self).ids_ok(),
        ensures
            final(self).wf(),
            final(self).ids_ok(),
            old(self).state is Precheck ==> {
                &&& final(self).state is Precheck
                &&& final(self).limit == old(self).limit
                &&& d == if old(self).limit > 0 {
                    DoDescend::Yes
                } else {
                    DoDescend::NoAbort
                }
            },
            old(self).state is Interleave ==> {
                let classes = old(self).state->Interleave_0;
                &&& final(self).state is Interleave
                &&& !(d is NoAbort)
                &&& old(self).limit >= 0 ==> {
                    &&& d is Yes
                    &&& final(self).limit == old(self).limit
                    &&& final(self).state == old(self).state
                }
                &&& SLOW_LIMIT_NEG <= old(self).limit < 0 ==> {
                    &&& EquivClasses::same_class_post(
                        classes,
                        final(self).state->Interleave_0,
                        a.spec_id(),
                        b.spec_id(),
                        d is NoContinue,
                    )
                    &&& final(self).limit == if d is NoContinue {
                        0
                    } else {
                        old(self).limit
                    }
                }
                &&& old(self).limit < SLOW_LIMIT_NEG ==> {
                    &&& d is Yes
                    &&& 0 <= final(self).limit <= FAST_LIMIT
                    &&& final(self).state == old(self).state
                }
            },
            d is NoContinue ==> (final(self).assumed())(a.spec_id(), b.spec_id()),
            forall|x: K, y: K| #[trigger] (old(self).assumed())(x, y) ==> (final(self).assumed())(x, y),
    {
        match &mut self.state {
            Control::Precheck => {
                if self.limit > 0 {
                    DoDescend::Yes
                } else {
                    DoDescend::NoAbort
                }
            },
            Control::Interleave(classes) => {
                if self.limit >= 0 {
                    // "fast" phase
                    DoDescend::Yes
                } else if self.limit >= SLOW_LIMIT_NEG {
                    // "slow" phase
                    let ghost c0 = *classes;
                    let same = classes.same_class(a.id(), b.id());
                    proof {
                        let c1 = *classes;
                        assert forall|x: K, y: K| c0.related(x, y) implies c1.related(x, y) by {
                            crate::classes::lemma_same_class_keeps_relation(c0, c1, a.spec_id(), b.spec_id(), same, x, y);
                        }
                        if same {
                            crate::classes::lemma_same_rep_is_related(c1, a.spec_id(), b.spec_id());
                        }
                    }
                    if same {
                        // This is what prevents traversing descendents that have
                        // already been checked, which prevents infinite loops on
                        // cycles and is more efficient on shared structure.  Reset
                        // the counter so that "slow" will be used for longer.
                        self.limit = 0;
                        DoDescend::NoContinue
                    } else {
                        DoDescend::Yes
                    }
                } else {
                    // "slow" limit reached, change to "fast" phase, with a random
                    // limit.
                    self.limit = rand_limit(FAST_LIMIT);
                    DoDescend::Yes
                }
            },
        }
    }
}

impl<K: Eq + Hash> Equiv<K> {
    /// Compares `a` and `b`, descending at most `depth` levels, and records the
    /// pairs whose classes it merged and then checked.  The ghost flag it
    /// returns tells whether the comparison stopped at its depth bound: it is
    /// set only where a pair with edges to descend is reached at depth 0.
    ///
    /// `pending` holds the pairs merged by the comparisons in progress around
    /// this one, `done` those merged and checked before, and `within` a set of
    /// nodes closed under edges that holds `a`, `b` and the pairs of `done`.
    /// When the assumed pairs lie within the equivalence that `pending` and
    /// `done` generate, and `done` is checked, an `Equiv` result keeps these
    /// facts, with the pairs this comparison merged and checked added to
    /// `done`.
    fn descend<N: Node<Id = K>>(
        &mut self,
        a: &N,
        b: &N,
        depth: usize,
        Ghost(within): Ghost<spec_fn(N) -> bool>,
        Ghost(pending): Ghost<Set<(N, N)>>,
        Ghost(done): Ghost<Set<(N, N)>>,
    ) -> (res: (EquivResult, Ghost<Set<(N, N)>>, Ghost<bool>))
        requires
            old(self).wf(),
            old(self).ids_ok(),
        ensures
            final(self).wf(),
            final(self).ids_ok(),
            res.0 is Unequiv ==> differ_within(*a, *b, depth as nat),
            res.0 is Equiv ==> agree_within(*a, *b, depth as nat, final(self).assumed()),
            forall|x: K, y: K| #[trigger] (old(self).assumed())(x, y) ==> (final(self).assumed())(x, y),
            old(self).state is Precheck ==> {
                &&& final(self).state is Precheck
                &&& (res.0, final(self).limit as int) == precheck_outcome(*a, *b, old(self).limit as int, depth as nat)
            },
            old(self).state is Interleave ==> final(self).state is Interleave,
            res.2@ ==> res.0 is Abort && long_descent(*a, *b, depth as nat + 1),
            old(self).state is Interleave && res.0 is Abort ==> res.2@,
            old(self).checks_classes(*a, *b) ==> Self::class_check_post(*old(self), *final(self), *a, *b, res.0),
            ({
                &&& old(self).state is Interleave
                &&& within_generated(old(self).assumed(), pending.union(done))
                &&& all_checked(done, old(self).assumed())
                &&& closed_under_edges(within)
                &&& within(*a)
                &&& within(*b)
                &&& pairs_within(done, within)
                &&& res.0 is Equiv
            }) ==> {
                &&& within_generated(final(self).assumed(), pending.union(res.1@))
                &&& all_checked(res.1@, final(self).assumed())
                &&& pairs_within(res.1@, within)
            },
        decreases depth,
    {
        proof {
            reveal(obeys_concrete_eq);
        }
        let ghost hyp = old(self).state is Interleave && within_generated(old(self).assumed(), pending.union(done))
            && all_checked(done, old(self).assumed()) && closed_under_edges(within) && within(*a) && within(*b)
            && pairs_within(done, within);
        let a_id = a.id();
        let b_id = b.id();
        if a_id == b_id {
            return (EquivResult::Equiv, Ghost(done), Ghost(false));
        }
        match a.equiv_modulo_descendents_then_amount_edges(b) {
            None => (EquivResult::Unequiv, Ghost(done), Ghost(false)),
            Some(amount_edges) => {
                let mut i: usize = 0;
                let ghost mut done_now = done;
                if i < amount_edges {
                    let ghost before = *self;
                    let descend = self.do_descend(a, b);
                    let ghost after = *self;
                    proof {
                        if before.checks_classes(*a, *b) {
                            crate::classes::lemma_same_rep_is_related(
                                after.state->Interleave_0,
                                a.spec_id(),
                                b.spec_id(),
                            );
                            assert((after.assumed())(a.spec_id(), b.spec_id()));
                            assert(before.state->Interleave_0.same_rep(a.spec_id(), b.spec_id()) ==> descend is NoContinue);
                        }
                    }
                    let ghost merged: bool = before.state is Interleave && SLOW_LIMIT_NEG <= before.limit < 0
                        && descend is Yes;
                    let ghost pending_now = if merged {
                        pending.insert((*a, *b))
                    } else {
                        pending
                    };
                    proof {
                        if hyp {
                            let r0 = before.assumed();
                            let r1 = self.assumed();
                            if before.limit >= 0 || before.limit < SLOW_LIMIT_NEG {
                                assert(self.state == before.state);
                            } else {
                                let c0 = before.state->Interleave_0;
                                let c1 = self.state->Interleave_0;
                                if descend is NoContinue {
                                    assert forall|x: K, y: K| #[trigger] r1(x, y) == r0(x, y) by {
                                        lemma_same_class_true(c0, c1, a.spec_id(), b.spec_id(), x, y);
                                    }
                                    assert(r1 =~= r0);
                                } else {
                                    assert forall|u: K, v: K| #[trigger] r1(u, v) implies {
                                        ||| r0(u, v) || u == v
                                        ||| (r0(u, a.spec_id()) || u == a.spec_id()) && (r0(b.spec_id(), v) || b.spec_id() == v)
                                        ||| (r0(u, b.spec_id()) || u == b.spec_id()) && (r0(a.spec_id(), v) || a.spec_id() == v)
                                    } by {
                                        assert(c1.related(u, v) == c0.merged(a.spec_id(), b.spec_id(), u, v));
                                    }
                                    lemma_within_generated_merge(r0, r1, pending.union(done), *a, *b);
                                    assert(pending.union(done).insert((*a, *b)) =~= pending.insert((*a, *b)).union(done));
                                    lemma_all_checked_more_assumed(done, r0, r1);
                                }
                            }
                        }
                    }
                    match descend {
                        DoDescend::Yes => {
                            if depth == 0 {
                                proof {
                                    assert(long_descent(a.spec_edge(0), b.spec_edge(0), 0));
                                }
                                return (EquivResult::Abort, Ghost(done), Ghost(true));
                            } else {
                                let ghost start_limit = self.limit as int;
                                assert(old(self).state is Precheck ==> precheck_outcome(*a, *b, start_limit, depth as nat)
                                    == precheck_edges(*a, *b, 0, amount_edges as nat, start_limit, depth as nat));
                                while i < amount_edges
                                    invariant
                                        self.wf(),
                                        self.ids_ok(),
                                        depth > 0,
                                        i <= amount_edges,
                                        a.spec_id() != b.spec_id(),
                                        a.spec_descend_amount(b) == Some(amount_edges),
                                        amount_edges <= a.spec_amount_edges(),
                                        amount_edges <= b.spec_amount_edges(),
                                        forall|x: K, y: K| #[trigger] (old(self).assumed())(x, y) ==> (self.assumed())(x, y),
                                        forall|x: K, y: K| #[trigger] (after.assumed())(x, y) ==> (self.assumed())(x, y),
                                        after.state is Interleave ==> self.state is Interleave,
                                        old(self).checks_classes(*a, *b) ==> {
                                            &&& (after.assumed())(a.spec_id(), b.spec_id())
                                            &&& !old(self).state->Interleave_0.same_rep(a.spec_id(), b.spec_id())
                                        },
                                        forall|j: int|
                                            0 <= j < i ==> agree_within(
                                                #[trigger] a.spec_edge(j),
                                                b.spec_edge(j),
                                                (depth - 1) as nat,
                                                self.assumed(),
                                            ),
                                        old(self).state is Precheck ==> {
                                            &&& self.state is Precheck
                                            &&& i32::MIN <= start_limit
                                            &&& start_limit == old(self).limit as int
                                            &&& precheck_outcome(*a, *b, start_limit, depth as nat)
                                                == precheck_edges(*a, *b, 0, amount_edges as nat, start_limit, depth as nat)
                                            &&& precheck_edges(*a, *b, 0, amount_edges as nat, start_limit, depth as nat)
                                                == precheck_edges(*a, *b, i as nat, amount_edges as nat, self.limit as int, depth as nat)
                                        },
                                        old(self).state is Interleave ==> self.state is Interleave,
                                        hyp ==> {
                                            &&& old(self).state is Interleave
                                            &&& closed_under_edges(within)
                                            &&& within(*a)
                                            &&& within(*b)
                                            &&& within_generated(self.assumed(), pending_now.union(done_now))
                                            &&& all_checked(done_now, self.assumed())
                                            &&& pairs_within(done_now, within)
                                            &&& merged ==> pending_now == pending.insert((*a, *b))
                                            &&& !merged ==> pending_now == pending
                                        },
                                    decreases amount_edges - i,
                                {
                                    let ae = a.get_edge(i);
                                    let be = b.get_edge(i);
                                    let ghost prev_limit = self.limit as int;
                                    self.limit = saturating_decrement(self.limit);
                                    let ghost mid = *self;
                                    proof {
                                        if hyp {
                                            assert(within(ae));
                                            assert(within(be));
                                        }
                                    }
                                    let child = self.descend(&ae, &be, depth - 1, Ghost(within), Ghost(pending_now), Ghost(done_now));
                                    let result = child.0;
                                    proof {
                                        done_now = child.1@;
                                        assert forall|x: K, y: K| #[trigger] (old(self).assumed())(x, y) implies (self.assumed())(x, y) by {
                                            assert((mid.assumed())(x, y));
                                        }
                                        assert forall|x: K, y: K| #[trigger] (after.assumed())(x, y) implies (self.assumed())(x, y) by {
                                            assert((mid.assumed())(x, y));
                                        }
                                        assert forall|j: int| 0 <= j < i implies agree_within(
                                            #[trigger] a.spec_edge(j),
                                            b.spec_edge(j),
                                            (depth - 1) as nat,
                                            self.assumed(),
                                        ) by {
                                            lemma_agree_more_assumed(
                                                a.spec_edge(j),
                                                b.spec_edge(j),
                                                (depth - 1) as nat,
                                                mid.assumed(),
                                                self.assumed(),
                                            );
                                        }
                                    }
                                    match result {
                                        EquivResult::Equiv => {},
                                        other => {
                                            proof {
                                                if old(self).state is Precheck {
                                                    assert(precheck_edges(*a, *b, i as nat, amount_edges as nat, prev_limit, depth as nat)
                                                        == (other, self.limit as int));
                                                }
                                                if other is Unequiv {
                                                    assert(differ_within(a.spec_edge(i as int), b.spec_edge(i as int), (depth - 1) as nat));
                                                }
                                                if child.2@ {
                                                    assert(long_descent(a.spec_edge(i as int), b.spec_edge(i as int), depth as nat));
                                                }
                                            }
                                            return (other, Ghost(done_now), child.2);
                                        },
                                    }
                                    i += 1;
                                }
                                proof {
                                    if hyp && merged {
                                        assert forall|j: int| 0 <= j < amount_edges implies agree_within(
                                            #[trigger] a.spec_edge(j),
                                            b.spec_edge(j),
                                            usize::MAX as nat,
                                            self.assumed(),
                                        ) by {
                                            lemma_agree_deeper(
                                                a.spec_edge(j),
                                                b.spec_edge(j),
                                                (depth - 1) as nat,
                                                usize::MAX as nat,
                                                self.assumed(),
                                            );
                                        }
                                        assert(checked_pair(*a, *b, self.assumed()));
                                        let d0 = done_now;
                                        done_now = done_now.insert((*a, *b));
                                        assert(pending_now.union(d0) =~= pending.union(done_now));
                                    }
                                }
                            }
                        },
                        DoDescend::NoContinue => {},
                        DoDescend::NoAbort => {
                            return (EquivResult::Abort, Ghost(done), Ghost(false));
                        },
                    }
                }
                (EquivResult::Equiv, Ghost(done_now), Ghost(false))
            },
        }
    }

    /// Compares `a` and `b`, descending at most `depth` levels: a pair whose
    /// edges would be descended at the bound aborts the comparison.
    ///
    /// An `Unequiv` result comes with a pair of descendents that tells `a` and
    /// `b` apart; an `Equiv` result means that they agree, up to the pairs that
    /// the state now takes as equivalent.  For the precheck, the result and the
    /// limit left are those of [`precheck_outcome`].  For an interleaving that
    /// starts from no classes, where the nodes reachable from `a` and `b` meet
    /// [`node_laws`], an `Equiv` result means that no unfolding tells `a` and `b`
    /// apart.  In a slow phase, the identities of `a` and `b` end in one class,
    /// and when they shared a representative already the answer is `Equiv` at
    /// once ([`Self::class_check_post`]).
    pub fn equiv_within<N: Node<Id = K>>(&mut self, a: &N, b: &N, depth: usize) -> (r: EquivResult)
        requires
            old(self).wf(),
            old(self).ids_ok(),
        ensures
            final(self).wf(),
            final(self).ids_ok(),
            r is Unequiv ==> differ_within(*a, *b, depth as nat),
            r is Equiv ==> agree_within(*a, *b, depth as nat, final(self).assumed()),
            forall|x: K, y: K| #[trigger] (old(self).assumed())(x, y) ==> (final(self).assumed())(x, y),
            old(self).state is Precheck ==> {
                &&& final(self).state is Precheck
                &&& (r, final(self).limit as int) == precheck_outcome(*a, *b, old(self).limit as int, depth as nat)
            },
            old(self).state is Precheck && 0 < old(self).limit && 0 < depth && a.spec_id() != b.spec_id() ==> (a.spec_descend_amount(b) matches Some(k) ==> (0 < k && edges_stop_at_once(*a, *b, k as nat) ==> r is Equiv && final(self).limit == saturating_sub(old(self).limit as int, k as nat))),
            old(self).state is Interleave ==> final(self).state is Interleave,
            old(self).state is Interleave && r is Abort ==> long_descent(*a, *b, depth as nat + 1),
            old(self).checks_classes(*a, *b) ==> Self::class_check_post(*old(self), *final(self), *a, *b, r),
            ({
                &&& old(self).state matches Control::Interleave(classes) && classes.keys() == Set::<K>::empty()
                &&& node_laws(reachable_from(*a, *b))
                &&& r is Equiv
            }) ==> !distinguishable(*a, *b),
    {
        self.compare(a, b, depth).0
    }

    /// [`Self::equiv_within`], which also reports (as a ghost flag) whether the
    /// comparison stopped at its depth bound.
    fn compare<N: Node<Id = K>>(&mut self, a: &N, b: &N, depth: usize) -> (res: (EquivResult, Ghost<bool>))
        requires
            old(self).wf(),
            old(self).ids_ok(),
        ensures
            final(self).wf(),
            final(self).ids_ok(),
            res.0 is Unequiv ==> differ_within(*a, *b, depth as nat),
            res.0 is Equiv ==> agree_within(*a, *b, depth as nat, final(self).assumed()),
            forall|x: K, y: K| #[trigger] (old(self).assumed())(x, y) ==> (final(self).assumed())(x, y),
            old(self).state is Precheck ==> {
                &&& final(self).state is Precheck
                &&& (res.0, final(self).limit as int) == precheck_outcome(*a, *b, old(self).limit as int, depth as nat)
            },
            old(self).state is Precheck && 0 < old(self).limit && 0 < depth && a.spec_id() != b.spec_id() ==> (a.spec_descend_amount(b) matches Some(k) ==> (0 < k && edges_stop_at_once(*a, *b, k as nat) ==> res.0 is Equiv && final(self).limit == saturating_sub(old(self).limit as int, k as nat))),
            old(self).state is Interleave ==> final(self).state is Interleave,
            res.1@ ==> res.0 is Abort && long_descent(*a, *b, depth as nat + 1),
            old(self).state is Interleave && res.0 is Abort ==> res.1@,
            old(self).checks_classes(*a, *b) ==> Self::class_check_post(*old(self), *final(self), *a, *b, res.0),
            ({
                &&& old(self).state matches Control::Interleave(classes) && classes.keys() == Set::<K>::empty()
                &&& node_laws(reachable_from(*a, *b))
                &&& res.0 is Equiv
            }) ==> !distinguishable(*a, *b),
    {
        let ghost r0 = self.assumed();
        proof {
            if self.state is Interleave && self.state->Interleave_0.keys() == Set::<K>::empty() {
                let classes = self.state->Interleave_0;
                let none = Set::<(N, N)>::empty().union(Set::empty());
                assert forall|q: spec_fn(K, K) -> bool|
                    #[trigger] is_equivalence(q) && (forall|p: (N, N)|
                        #[trigger] none.contains(p) ==> q(p.0.spec_id(), p.1.spec_id())) implies forall|u: K, v: K|
                    #[trigger] r0(u, v) ==> q(u, v) by {
                    assert forall|u: K, v: K| #[trigger] r0(u, v) implies q(u, v) by {
                        assert(!classes.keys().contains(u));
                    }
                }
            }
        }
        proof {
            lemma_reachable_closed(*a, *b);
        }
        let res = self.descend(a, b, depth, Ghost(reachable_from(*a, *b)), Ghost(Set::empty()), Ghost(Set::empty()));
        proof {
            if old(self).state matches Control::Interleave(classes) && classes.keys() == Set::<K>::empty()
                && node_laws(reachable_from(*a, *b)) && res.0 is Equiv {
                let done = res.1@;
                assert(Set::<(N, N)>::empty().union(done) =~= done);
                assert forall|d: nat| !differ_within(*a, *b, d) by {
                    lemma_agree_checked_not_distinguishable(*a, *b, depth as nat, done, self.assumed(), d);
                }
            }
        }
        proof {
            if old(self).state is Precheck && 0 < old(self).limit && 0 < depth && a.spec_id() != b.spec_id() {
                if a.spec_descend_amount(b) matches Some(k) && 0 < k && edges_stop_at_once(*a, *b, k as nat) {
                    lemma_precheck_limit_checked_on_entry(*a, *b, old(self).limit as int, depth as nat);
                }
            }
        }
        (res.0, res.2)
    }

    /// Compares `a` and `b`, with a bound on descents that no call stack can
    /// reach.
    pub fn equiv<N: Node<Id = K>>(&mut self, a: &N, b: &N) -> (r: EquivResult)
        requires
            old(self).wf(),
            old(self).ids_ok(),
        ensures
            final(self).wf(),
            final(self).ids_ok(),
            r is Unequiv ==> distinguishable(*a, *b),
            r is Equiv ==> agree_within(*a, *b, usize::MAX as nat, final(self).assumed()),
            forall|x: K, y: K| #[trigger] (old(self).assumed())(x, y) ==> (final(self).assumed())(x, y),
            old(self).state is Precheck ==> {
                &&& final(self).state is Precheck
                &&& (r, final(self).limit as int) == precheck_outcome(*a, *b, old(self).limit as int, usize::MAX as nat)
            },
            old(self).state is Precheck && 0 < old(self).limit && 0 < usize::MAX && a.spec_id() != b.spec_id() ==> (a.spec_descend_amount(b) matches Some(k) ==> (0 < k && edges_stop_at_once(*a, *b, k as nat) ==> r is Equiv && final(self).limit == saturating_sub(old(self).limit as int, k as nat))),
            old(self).state is Interleave ==> final(self).state is Interleave,
            old(self).state is Interleave && r is Abort ==> long_descent(*a, *b, usize::MAX as nat + 1),
            old(self).checks_classes(*a, *b) ==> Self::class_check_post(*old(self), *final(self), *a, *b, r),
            ({
                &&& old(self).state matches Control::Interleave(classes) && classes.keys() == Set::<K>::empty()
                &&& node_laws(reachable_from(*a, *b))
                &&& r is Equiv
            }) ==> !distinguishable(*a, *b),
    {
        self.equiv_within(a, b, usize::MAX)
    }
}

/// The precheck phase from `limit`: a comparison that aborts instead of
/// descending once the limit is used up.
fn precheck<N: Node>(a: &N, b: &N, limit: i32) -> (r: EquivResult)
    requires
        obeys_concrete_eq::<N::Id>(),
    ensures
        r == precheck_outcome(*a, *b, limit as int, usize::MAX as nat).0,
        r is Unequiv ==> distinguishable(*a, *b),
{
    let mut e = Equiv::<N::Id> { limit, state: Control::Precheck };
    e.equiv(a, b)
}

/// The interleaving phase from `limit`.  Cycles are handled by the equivalence
/// classes of the slow phases.  Besides the answer, it reports (as a ghost flag)
/// whether the comparison stopped at its depth bound: only then is a `false`
/// answer not backed by an unfolding that tells `a` and `b` apart.
fn interleave<N: Node>(a: &N, b: &N, limit: i32) -> (res: (bool, Ghost<bool>))
    requires
        obeys_concrete_eq::<N::Id>(),
        obeys_key_model::<N::Id>(),
    ensures
        flagged_answer(*a, *b, res.0, res.1@),
{
    let mut e = Equiv { limit, state: Control::Interleave(EquivClasses::new()) };
    let res = e.compare(a, b, usize::MAX);
    (matches!(res.0, EquivResult::Equiv), res.1)
}

/// The main equivalence algorithm, which can be used for [`PartialEq`]
/// implementations: a bounded precheck, and when that aborts, the interleaving
/// of fast and slow phases.
///
/// A `true` result means that no finite unfolding of edges tells `a` and `b`
/// apart: always when the precheck decides, and otherwise when the nodes
/// reachable from `a` and `b` meet [`node_laws`].  A `false` result comes with
/// such an unfolding, or with a descent of more than `usize::MAX` levels, which
/// every pair that cycles keep apart has.  [`precheck_interleave_equiv_flagged`]
/// gives the same answer and also tells whether the depth bound was reached.
pub fn precheck_interleave_equiv<N: Node>(a: &N, b: &N) -> (r: bool)
    requires
        obeys_concrete_eq::<N::Id>(),
        obeys_key_model::<N::Id>(),
    ensures
        precheck_outcome(*a, *b, PRE_LIMIT as int, usize::MAX as nat).0 is Equiv ==> r && !distinguishable(*a, *b),
        precheck_outcome(*a, *b, PRE_LIMIT as int, usize::MAX as nat).0 is Unequiv ==> !r && distinguishable(*a, *b),
        sound_answer(*a, *b, r),
        a.spec_id() == b.spec_id() ==> r,
{
    precheck_interleave_equiv_flagged(a, b).0
}

/// [`precheck_interleave_equiv`], which also returns a ghost flag that tells
/// whether the comparison stopped at its depth bound.  A `false` answer without
/// that flag comes with an unfolding of edges that tells `a` and `b` apart; the
/// laws after [`flagged_answer`] hold of every answer whose flag is clear.
pub fn precheck_interleave_equiv_flagged<N: Node>(a: &N, b: &N) -> (res: (bool, Ghost<bool>))
    requires
        obeys_concrete_eq::<N::Id>(),
        obeys_key_model::<N::Id>(),
    ensures
        precheck_outcome(*a, *b, PRE_LIMIT as int, usize::MAX as nat).0 is Equiv ==> res.0 && !res.1@ && !distinguishable(*a, *b),
        precheck_outcome(*a, *b, PRE_LIMIT as int, usize::MAX as nat).0 is Unequiv ==> !res.0 && !res.1@ && distinguishable(*a, *b),
        flagged_answer(*a, *b, res.0, res.1@),
        sound_answer(*a, *b, res.0),
        a.spec_id() == b.spec_id() ==> res.0,
{
    match precheck(a, b, PRE_LIMIT as i32) {
        EquivResult::Equiv => {
            proof {
                assert forall|d: nat| !differ_within(*a, *b, d) by {
                    lemma_precheck_equiv_not_distinguishable(*a, *b, PRE_LIMIT as int, usize::MAX as nat, d);
                }
            }
            (true, Ghost(false))
        },
        EquivResult::Unequiv => (false, Ghost(false)),
        EquivResult::Abort => interleave(a, b, -1),
    }
}

/// What an answer `r` of [`precheck_interleave_equiv`] for `a` and `b` is known
/// to mean: `true` only for identical nodes or nodes with something to compare,
/// and for no two nodes that an unfolding tells apart when the reachable nodes
/// meet [`node_laws`]; `false` only for nodes that an unfolding tells apart or
/// that a comparison can descend more than `usize::MAX` levels into.
pub open spec fn sound_answer<N: Node>(a: N, b: N, r: bool) -> bool {
    &&& r ==> a.spec_id() == b.spec_id() || a.spec_descend_amount(&b) is Some
    &&& r && node_laws(reachable_from(a, b)) ==> !distinguishable(a, b)
    &&& !r ==> distinguishable(a, b) || long_descent(a, b, usize::MAX as nat + 1)
}

/// What an answer `r` with depth-bound flag `hit` is known to mean: as for
/// [`sound_answer`], except that a `false` answer without an unfolding that
/// tells `a` and `b` apart comes only with the flag set, and the flag is set
/// only on a `false` answer for nodes that can be descended more than
/// `usize::MAX` levels into.
pub open spec fn flagged_answer<N: Node>(a: N, b: N, r: bool, hit: bool) -> bool {
    &&& r ==> a.spec_id() == b.spec_id() || a.spec_descend_amount(&b) is Some
    &&& r && node_laws(reachable_from(a, b)) ==> !distinguishable(a, b)
    &&& !r ==> distinguishable(a, b) || hit
    &&& hit ==> !r && long_descent(a, b, usize::MAX as nat + 1)
}

/// Where no comparison of `a` and `b` can descend more than `usize::MAX` levels
/// (so on every acyclic graph of smaller depth), an answer has its flag clear:
/// the laws below then hold of [`precheck_interleave_equiv`] itself.
pub proof fn lemma_bounded_answer_clear<N: Node>(a: N, b: N, r: bool)
    requires
        !long_descent(a, b, usize::MAX as nat + 1),
        sound_answer(a, b, r),
    ensures
        flagged_answer(a, b, r, false),
{
}

/// Where the nodes meet the node laws, an answer whose depth-bound flag is clear
/// is exactly whether no unfolding tells `a` and `b` apart.
pub proof fn lemma_answer_exact<N: Node>(within: spec_fn(N) -> bool, a: N, b: N, r: bool)
    requires
        node_laws(within),
        closed_under_edges(within),
        within(a),
        within(b),
        flagged_answer(a, b, r, false),
    ensures
        r == !distinguishable(a, b),
{
    lemma_reachable_within(within, a, b);
}

/// Any two answers for the same nodes whose flags are clear agree: the answer
/// depends neither on the limit the interleaving starts from nor on the limits
/// it draws, and the precheck never changes it.
pub proof fn lemma_answers_agree<N: Node>(within: spec_fn(N) -> bool, a: N, b: N, r1: bool, r2: bool)
    requires
        node_laws(within),
        closed_under_edges(within),
        within(a),
        within(b),
        flagged_answer(a, b, r1, false),
        flagged_answer(a, b, r2, false),
    ensures
        r1 == r2,
{
    lemma_answer_exact(within, a, b, r1);
    lemma_answer_exact(within, a, b, r2);
}

/// Answers whose flags are clear do not depend on the order of the nodes.
pub proof fn lemma_answer_symmetric<N: Node>(within: spec_fn(N) -> bool, a: N, b: N, r1: bool, r2: bool)
    requires
        node_laws(within),
        closed_under_edges(within),
        within(a),
        within(b),
        flagged_answer(a, b, r1, false),
        flagged_answer(b, a, r2, false),
    ensures
        r1 == r2,
{
    lemma_answer_exact(within, a, b, r1);
    lemma_answer_exact(within, b, a, r2);
    if distinguishable(a, b) {
        let d = choose|d: nat| differ_within(a, b, d);
        lemma_differ_symmetric(within, a, b, d);
    }
    if distinguishable(b, a) {
        let d = choose|d: nat| differ_within(b, a, d);
        lemma_differ_symmetric(within, b, a, d);
    }
}

/// Answers are transitive: `true` for `a` and `b` and for `b` and `c` gives
/// `true` for `a` and `c`, when the flag of that last answer is clear.
pub proof fn lemma_answer_transitive<N: Node>(
    within: spec_fn(N) -> bool,
    a: N,
    b: N,
    c: N,
    r1: bool,
    h1: bool,
    r2: bool,
    h2: bool,
    r3: bool,
)
    requires
        node_laws(within),
        closed_under_edges(within),
        within(a),
        within(b),
        within(c),
        flagged_answer(a, b, r1, h1),
        flagged_answer(b, c, r2, h2),
        flagged_answer(a, c, r3, false),
    ensures
        r1 && r2 ==> r3,
{
    lemma_reachable_within(within, a, b);
    lemma_reachable_within(within, b, c);
    if r1 && r2 && distinguishable(a, c) {
        let d = choose|d: nat| differ_within(a, c, d);
        lemma_differ_split(within, a, b, c, d);
    }
}

/// Calls `fastrand::i32` for a number drawn from `0 ..= max`.  What it returns
/// depends on chance: only that it lies in that range is stated.
#[verifier::external_body]
fn rand_limit(max: u16) -> (r: i32)
    ensures
        0 <= r <= max,
{
    fastrand::i32(0..=i32::from(max))
}

/// `limit - 1`, saturating at `i32::MIN`.
fn saturating_decrement(limit: i32) -> (r: i32)
    ensures
        r == saturating_dec(limit as int),
{
    match limit.checked_sub(1) {
        Some(l) => l,
        None => i32::MIN,
    }
}

} // verus!
