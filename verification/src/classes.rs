//! Equivalence classes of keys: a union-find whose cells live in a [`ClassArena`].
//!
//! Each key names a chain cell; two keys share a representative when their chains
//! end at the same one.  Besides the cells, a ghost label per representative
//! records the equivalence that the calls so far have built: merging two classes
//! relabels one of them, so that labels only ever merge.  Keys that share a
//! representative always share a label.
//!
//! A merge links the cell of one of the two keys, not the end of its chain, so
//! keys of the absorbed class whose chains do not pass through that cell keep
//! the old representative: `same_class` may later answer `false` for keys that
//! an earlier call related.  That costs a further descent, never a wrong
//! `true`.

use std::collections::HashMap;
use std::hash::Hash;
use vstd::prelude::*;
use vstd::std_specs::hash::obeys_key_model;
use crate::chain::{
    lemma_reaches_same_root, lemma_split_reaches, lemma_split_wf, reaches, split_path, ChainRef, ClassArena,
    EquivClassChain, RepRef,
};

verus! {

/// The classes of the keys seen so far.
pub struct EquivClasses<K> {
    map: HashMap<K, ChainRef>,
    arena: ClassArena,
    labels: Ghost<Seq<nat>>,
}

/// A relabelling that merges label `from` into label `to`.
pub open spec fn relabel(u: nat, from: nat, to: nat) -> nat {
    if u == from {
        to
    } else {
        u
    }
}

impl<K: Eq + Hash> EquivClasses<K> {
    /// The invariant of the classes.
    pub closed spec fn wf(&self) -> bool {
        &&& self.arena.wf()
        &&& self.labels@.len() == self.arena.rep_count()
        &&& forall|r: int| 0 <= r < self.labels@.len() ==> #[trigger] self.labels@[r] < self.labels@.len()
        &&& forall|k: K| #[trigger] self.map@.contains_key(k) ==> self.arena.has_chain(self.map@[k])
    }

    /// The keys seen so far.
    pub closed spec fn keys(&self) -> Set<K> {
        self.map@.dom()
    }

    /// The representative of the class of key `k`.
    pub closed spec fn key_rep(&self, k: K) -> RepRef {
        self.arena.root(self.map@[k])
    }

    /// The label of the class of key `k`.
    pub closed spec fn class_of(&self, k: K) -> nat {
        self.cell_class(self.map@[k])
    }

    /// Whether keys `x` and `y` have been seen and share a representative.
    pub open spec fn same_rep(&self, x: K, y: K) -> bool {
        &&& self.keys().contains(x)
        &&& self.keys().contains(y)
        &&& self.key_rep(x) == self.key_rep(y)
    }

    /// Whether keys `x` and `y` have been seen and the calls so far have put them
    /// in one class.
    pub open spec fn related(&self, x: K, y: K) -> bool {
        &&& self.keys().contains(x)
        &&& self.keys().contains(y)
        &&& self.class_of(x) == self.class_of(y)
    }

    /// `related`, or the same key.
    pub open spec fn related_or_same(&self, x: K, y: K) -> bool {
        self.related(x, y) || x == y
    }

    /// The relation that results from merging the classes of `a` and `b`, after
    /// adding them as keys if they are new.
    pub open spec fn merged(&self, a: K, b: K, x: K, y: K) -> bool {
        let ks = self.keys().insert(a).insert(b);
        &&& ks.contains(x)
        &&& ks.contains(y)
        &&& {
            ||| self.related_or_same(x, y)
            ||| self.related_or_same(x, a) && self.related_or_same(b, y)
            ||| self.related_or_same(x, b) && self.related_or_same(a, y)
        }
    }

    /// The cell that key `k` names.
    pub closed spec fn key_cell(&self, k: K) -> ChainRef {
        self.map@[k]
    }

    /// The cells of the classes, indexed by [`ChainRef`].
    pub closed spec fn cells(&self) -> Seq<EquivClassChain> {
        self.arena.cells()
    }

    /// The ranks of the cells, which fall strictly along every link.
    pub closed spec fn ranks(&self) -> Seq<nat> {
        self.arena.ranks()
    }

    /// How many cells the classes hold.
    pub closed spec fn cell_count(&self) -> nat {
        self.arena.cells().len()
    }

    /// The content of cell `c`.
    pub closed spec fn cell(&self, c: ChainRef) -> EquivClassChain {
        self.arena.cells()[c.index as int]
    }

    /// Key `k` names a cell added by the step from `old` to `new`, one past the
    /// cells of `old`, that ends its chain at representative `r`; no key of `old`
    /// names it.
    pub open spec fn fresh_cell(old: Self, new: Self, k: K, r: RepRef) -> bool {
        &&& new.key_cell(k).index == old.cell_count()
        &&& new.cell_count() == old.cell_count() + 1
        &&& new.cell(new.key_cell(k)) == EquivClassChain::End(r)
        &&& forall|x: K| #[trigger] old.keys().contains(x) ==> old.key_cell(x) != new.key_cell(k)
    }

    /// The cells after the two searches that a merge of the classes of `a` and
    /// `b` makes, which split the paths from the cell of `a` and then from the
    /// cell of `b`.
    pub closed spec fn searched_cells(&self, a: K, b: K) -> Seq<EquivClassChain> {
        let once = split_path(self.arena.cells(), self.arena.ranks(), self.map@[a].index as int);
        split_path(once, self.arena.ranks(), self.map@[b].index as int)
    }

    /// Whether, after the searches of a merge of the classes of `a` and `b`, the
    /// chain from the cell of key `x` passes through the cell of key `t`.
    pub closed spec fn passes_after_searches(&self, a: K, b: K, x: K, t: K) -> bool {
        reaches(self.searched_cells(a, b), self.arena.ranks(), self.map@[x].index as int, self.map@[t].index as int)
    }

    /// The key whose cell a merge of the distinct classes of `a` and `b` links
    /// into the other class: `b`, unless the class of `a` is the lighter one.
    pub open spec fn merge_linked(old: Self, a: K, b: K) -> K {
        if old.rep_weight(old.key_rep(a)) >= old.rep_weight(old.key_rep(b)) {
            b
        } else {
            a
        }
    }

    /// The key whose class keeps its representative in a merge of the distinct
    /// classes of `a` and `b`: `a`, unless its class is the lighter one.
    pub open spec fn merge_kept(old: Self, a: K, b: K) -> K {
        if old.rep_weight(old.key_rep(a)) >= old.rep_weight(old.key_rep(b)) {
            a
        } else {
            b
        }
    }

    /// The cells after `same_class(a, b)` answered `r`: the paths from the cells
    /// of the seen keys are split (first that of `a`); a merge then links the
    /// cell of [`Self::merge_linked`] to the cell of [`Self::merge_kept`]; a new
    /// key adds one cell that ends at the representative it joins (two new keys
    /// share one new cell with a new representative).
    pub open spec fn cells_post(old: Self, new: Self, a: K, b: K, r: bool) -> bool {
        let seen_a = old.keys().contains(a);
        let seen_b = old.keys().contains(b);
        &&& seen_a && seen_b && r ==> new.cells() == old.searched_cells(a, b)
        &&& seen_a && seen_b && !r ==> new.cells() == old.searched_cells(a, b).update(
            old.key_cell(Self::merge_linked(old, a, b)).index as int,
            EquivClassChain::Next(old.key_cell(Self::merge_kept(old, a, b))),
        )
        &&& seen_a && !seen_b ==> new.cells() == split_path(
            old.cells(),
            old.ranks(),
            old.key_cell(a).index as int,
        ).push(EquivClassChain::End(old.key_rep(a)))
        &&& !seen_a && seen_b ==> new.cells() == split_path(
            old.cells(),
            old.ranks(),
            old.key_cell(b).index as int,
        ).push(EquivClassChain::End(old.key_rep(b)))
        &&& !seen_a && !seen_b ==> new.cells() == old.cells().push(EquivClassChain::End(new.key_rep(a)))
    }

    /// Every cell of `old` that ends its chain keeps its content in `new`, but
    /// for cell `linked` when `merging`.
    pub open spec fn keeps_end_cells(old: Self, new: Self, merging: bool, linked: ChainRef) -> bool {
        forall|c: ChainRef|
            #![trigger new.cell(c)]
            c.index < old.cell_count() && old.cell(c) is End && !(merging && c == linked) ==> new.cell(c)
                == old.cell(c)
    }

    /// Every key of `old` names the same cell in `new`.
    pub open spec fn keeps_cells(old: Self, new: Self) -> bool {
        forall|x: K| #[trigger] old.keys().contains(x) ==> new.key_cell(x) == old.key_cell(x)
    }

    /// Every key of `old` keeps its representative in `new`, and that
    /// representative keeps its weight.
    pub open spec fn keeps_reps(old: Self, new: Self) -> bool {
        forall|x: K|
            #[trigger] old.keys().contains(x) ==> {
                &&& new.key_rep(x) == old.key_rep(x)
                &&& new.rep_weight(old.key_rep(x)) == old.rep_weight(old.key_rep(x))
            }
    }

    /// The merge of the distinct classes of the seen keys `a` and `b`.  The
    /// heavier representative stays (on equal weights, that of `a`) and takes the
    /// sum of both weights; the cell of the other key is linked into the kept
    /// class.  A key moves to the kept representative exactly when its chain,
    /// after the searches the merge makes, passes through the linked cell; all
    /// other keys, those of the absorbed class among them, keep their
    /// representative.
    pub open spec fn merge_post(old: Self, new: Self, a: K, b: K) -> bool {
        let ra = old.key_rep(a);
        let rb = old.key_rep(b);
        let a_heavier = old.rep_weight(ra) >= old.rep_weight(rb);
        let kept = if a_heavier {
            ra
        } else {
            rb
        };
        let lost = if a_heavier {
            rb
        } else {
            ra
        };
        let linked = Self::merge_linked(old, a, b);
        &&& new.key_rep(a) == kept
        &&& new.rep_weight(kept) == old.rep_weight(ra).saturating_add(old.rep_weight(rb))
        &&& forall|x: K|
            #[trigger] old.keys().contains(x) ==> {
                &&& new.key_rep(x) == if old.passes_after_searches(a, b, x, linked) {
                    kept
                } else {
                    old.key_rep(x)
                }
                &&& old.key_rep(x) != lost ==> new.key_rep(x) == old.key_rep(x)
                &&& old.key_cell(x) == old.key_cell(linked) ==> new.key_rep(x) == kept
                &&& old.key_rep(x) != kept ==> new.rep_weight(old.key_rep(x)) == old.rep_weight(
                    old.key_rep(x),
                )
            }
    }

    /// What a call `same_class(a, b)` that returns `r` does, from state `old` to
    /// state `new`.
    pub open spec fn same_class_post(old: Self, new: Self, a: K, b: K, r: bool) -> bool {
        let seen_a = old.keys().contains(a);
        let seen_b = old.keys().contains(b);
        &&& new.wf()
        &&& r == old.same_rep(a, b)
        &&& new.keys() == old.keys().insert(a).insert(b)
        &&& new.same_rep(a, b)
        &&& forall|x: K, y: K| #[trigger] new.related(x, y) <==> old.merged(a, b, x, y)
        &&& Self::keeps_cells(old, new)
        &&& Self::cells_post(old, new, a, b, r)
        &&& Self::keeps_end_cells(old, new, seen_a && seen_b && !r, old.key_cell(Self::merge_linked(old, a, b)))
        &&& forall|x: K|
            #[trigger] old.keys().contains(x) ==> new.key_rep(x) == old.key_rep(x) || new.key_rep(x)
                == new.key_rep(a)
        &&& r || !seen_a || !seen_b ==> Self::keeps_reps(old, new)
        &&& seen_a && !seen_b ==> {
            &&& new.key_rep(b) == old.key_rep(a)
            &&& Self::fresh_cell(old, new, b, old.key_rep(a))
        }
        &&& !seen_a && seen_b ==> {
            &&& new.key_rep(a) == old.key_rep(b)
            &&& Self::fresh_cell(old, new, a, old.key_rep(b))
        }
        &&& !seen_a && !seen_b ==> {
            &&& new.key_cell(a) == new.key_cell(b)
            &&& Self::fresh_cell(old, new, a, new.key_rep(a))
            &&& new.rep_weight(new.key_rep(a)) == 1
            &&& forall|x: K| #[trigger] old.keys().contains(x) ==> old.key_rep(x) != new.key_rep(a)
        }
        &&& seen_a && seen_b && !r ==> Self::merge_post(old, new, a, b)
    }

    /// The weight of a representative: one for a new class, and the sum of both
    /// weights when two classes merge.
    pub closed spec fn rep_weight(&self, r: RepRef) -> usize {
        self.arena.weight(r)
    }

    /// No classes.
    pub fn new() -> (classes: Self)
        ensures
            classes.wf(),
            classes.keys() == Set::<K>::empty(),
    {
        let classes = EquivClasses { map: HashMap::new(), arena: ClassArena::new(), labels: Ghost(Seq::empty()) };
        assert(classes.keys() =~= Set::<K>::empty());
        classes
    }

    /// Adds the unseen keys `ak` and `bk` as one new class.
    fn none_seen(&mut self, ak: K, bk: K)
        requires
            old(self).wf(),
            obeys_key_model::<K>(),
            !old(self).keys().contains(ak),
            !old(self).keys().contains(bk),
        ensures
            final(self).wf(),
            final(self).keys() == old(self).keys().insert(ak).insert(bk),
            forall|x: K|
                #[trigger] old(self).keys().contains(x) ==> final(self).key_rep(x) == old(self).key_rep(x)
                    && final(self).class_of(x) == old(self).class_of(x) && final(self).key_cell(x) == old(
                    self,
                ).key_cell(x) && final(self).rep_weight(old(self).key_rep(x)) == old(self).rep_weight(
                    old(self).key_rep(x),
                ) && final(self).key_rep(x) != final(self).key_rep(ak),
            final(self).key_rep(ak) == final(self).key_rep(bk),
            final(self).key_cell(ak) == final(self).key_cell(bk),
            Self::fresh_cell(*old(self), *final(self), ak, final(self).key_rep(ak)),
            Self::keeps_end_cells(*old(self), *final(self), false, ChainRef { index: 0 }),
            final(self).cells() == old(self).cells().push(EquivClassChain::End(final(self).key_rep(ak))),
            final(self).arena.weight(final(self).key_rep(ak)) == 1,
            final(self).class_of(ak) == final(self).class_of(bk),
            forall|x: K| #[trigger] old(self).keys().contains(x) ==> old(self).class_of(x) != final(self).class_of(ak),
    {
        let ghost old_labels = self.labels@;
        let ghost fresh: nat = self.arena.rep_count();
        let aec = EquivClassChain::default(&mut self.arena);
        let bec = aec;
        proof {
            self.labels@ = old_labels.push(fresh);
        }
        let _ignored1 = self.map.insert(ak, aec);
        let _ignored2 = self.map.insert(bk, bec);
        proof {
            assert(self.keys() =~= old(self).keys().insert(ak).insert(bk));
            assert forall|x: K| #[trigger] old(self).keys().contains(x) implies self.key_rep(x) == old(self).key_rep(x)
                && self.class_of(x) == old(self).class_of(x) && self.key_cell(x) == old(self).key_cell(x)
                && self.rep_weight(old(self).key_rep(x)) == old(self).rep_weight(old(self).key_rep(x))
                && self.key_rep(x) != self.key_rep(ak) by {
                assert(self.map@[x] == old(self).map@[x]);
                assert(old(self).arena.has_chain(old(self).map@[x]));
                old(self).lemma_root_has_rep(old(self).map@[x]);
            }
            assert forall|r: int| 0 <= r < self.labels@.len() implies #[trigger] self.labels@[r] < self.labels@.len() by {
                if r < old_labels.len() {
                    assert(old_labels[r] < old_labels.len());
                }
            }
            assert forall|k: K| #[trigger] self.map@.contains_key(k) implies self.arena.has_chain(self.map@[k]) by {
                if k != ak && k != bk {
                    assert(old(self).map@.contains_key(k));
                }
            }
            assert forall|x: K| #[trigger] old(self).keys().contains(x) implies old(self).key_cell(x) != self.key_cell(ak) by {
                assert(old(self).arena.has_chain(old(self).map@[x]));
            }
            assert forall|x: K| #[trigger] old(self).keys().contains(x) implies old(self).class_of(x) != self.class_of(ak) by {
                old(self).lemma_root_has_rep(old(self).map@[x]);
                assert(old_labels[old(self).key_rep(x).index as int] < old_labels.len());
            }
        }
    }

    /// Adds the unseen key `k` to the class of cell `oec`.
    fn some_seen(&mut self, oec: ChainRef, k: K)
        requires
            old(self).wf(),
            obeys_key_model::<K>(),
            old(self).arena.has_chain(oec),
            !old(self).keys().contains(k),
        ensures
            final(self).wf(),
            final(self).keys() == old(self).keys().insert(k),
            forall|x: K|
                #[trigger] old(self).keys().contains(x) ==> final(self).key_rep(x) == old(self).key_rep(x)
                    && final(self).class_of(x) == old(self).class_of(x),
            final(self).key_rep(k) == old(self).arena.root(oec),
            final(self).class_of(k) == old(self).labels@[old(self).arena.root(oec).index as int],
            Self::keeps_cells(*old(self), *final(self)),
            Self::fresh_cell(*old(self), *final(self), k, old(self).arena.root(oec)),
            Self::keeps_end_cells(*old(self), *final(self), false, ChainRef { index: 0 }),
            final(self).cells() == split_path(old(self).cells(), old(self).ranks(), oec.index as int).push(
                EquivClassChain::End(old(self).arena.root(oec)),
            ),
            forall|q: RepRef| #[trigger] final(self).rep_weight(q) == old(self).rep_weight(q),
    {
        let rep = EquivClassChain::rep_of(&mut self.arena, oec);
        let ghost mid = self.arena;
        let ec = EquivClassChain::new(&mut self.arena, rep);
        let _ignored = self.map.insert(k, ec);
        proof {
            assert(self.keys() =~= old(self).keys().insert(k));
            assert forall|x: K| #[trigger] old(self).keys().contains(x) implies self.key_rep(x) == old(self).key_rep(x)
                && self.class_of(x) == old(self).class_of(x) by {
                assert(self.map@[x] == old(self).map@[x]);
                assert(old(self).arena.has_chain(old(self).map@[x]));
                assert(mid.has_chain(old(self).map@[x]));
                assert(mid.root(old(self).map@[x]) == old(self).arena.root(old(self).map@[x]));
                assert(self.arena.root(old(self).map@[x]) == mid.root(old(self).map@[x]));
            }
            assert forall|q: K| #[trigger] self.map@.contains_key(q) implies self.arena.has_chain(self.map@[q]) by {
                if q != k {
                    assert(old(self).map@.contains_key(q));
                }
            }
            assert forall|x: K| #[trigger] old(self).keys().contains(x) implies self.key_cell(x) == old(self).key_cell(x)
                && old(self).key_cell(x) != self.key_cell(k) by {
                assert(self.map@[x] == old(self).map@[x]);
                assert(old(self).arena.has_chain(old(self).map@[x]));
            }
        }
    }

    /// Merges the classes of cells `aec` and `bec`, and reports whether they had
    /// one representative already.  The cell of the lighter class is linked to
    /// the cell of the heavier one (on equal weights, `bec` is linked to `aec`),
    /// and the representative that stays takes the sum of both weights.
    fn all_seen(&mut self, aec: ChainRef, bec: ChainRef) -> (r: bool)
        requires
            old(self).wf(),
            old(self).arena.has_chain(aec),
            old(self).arena.has_chain(bec),
        ensures
            final(self).wf(),
            final(self).map@ == old(self).map@,
            r == (old(self).arena.root(aec) == old(self).arena.root(bec)),
            final(self).arena.root(aec) == final(self).arena.root(bec),
            r ==> forall|c: ChainRef|
                old(self).arena.has_chain(c) ==> #[trigger] final(self).arena.root(c) == old(self).arena.root(c),
            r ==> forall|q: RepRef| #[trigger] final(self).rep_weight(q) == old(self).rep_weight(q),
            r ==> final(self).cells() == split_path(
                split_path(old(self).cells(), old(self).ranks(), aec.index as int),
                old(self).ranks(),
                bec.index as int,
            ),
            !r ==> final(self).cells() == split_path(
                split_path(old(self).cells(), old(self).ranks(), aec.index as int),
                old(self).ranks(),
                bec.index as int,
            ).update(
                (if old(self).arena.weight(old(self).arena.root(aec)) >= old(self).arena.weight(
                    old(self).arena.root(bec),
                ) {
                    bec
                } else {
                    aec
                }).index as int,
                EquivClassChain::Next(
                    if old(self).arena.weight(old(self).arena.root(aec)) >= old(self).arena.weight(
                        old(self).arena.root(bec),
                    ) {
                        aec
                    } else {
                        bec
                    },
                ),
            ),
            Self::keeps_end_cells(
                *old(self),
                *final(self),
                !r,
                if old(self).arena.weight(old(self).arena.root(aec)) >= old(self).arena.weight(
                    old(self).arena.root(bec),
                ) {
                    bec
                } else {
                    aec
                },
            ),
            !r ==> ({
                let ra = old(self).arena.root(aec);
                let rb = old(self).arena.root(bec);
                let a_heavier = old(self).arena.weight(ra) >= old(self).arena.weight(rb);
                let kept = if a_heavier {
                    ra
                } else {
                    rb
                };
                let lost = if a_heavier {
                    rb
                } else {
                    ra
                };
                let linked = if a_heavier {
                    bec
                } else {
                    aec
                };
                &&& final(self).arena.root(aec) == kept
                &&& final(self).arena.weight(kept) == old(self).arena.weight(ra).saturating_add(
                    old(self).arena.weight(rb),
                )
                &&& forall|c: ChainRef|
                    #![trigger final(self).arena.root(c)]
                    old(self).arena.has_chain(c) ==> final(self).arena.root(c) == if reaches(
                        split_path(
                            split_path(old(self).arena.cells(), old(self).arena.ranks(), aec.index as int),
                            old(self).arena.ranks(),
                            bec.index as int,
                        ),
                        old(self).arena.ranks(),
                        c.index as int,
                        linked.index as int,
                    ) {
                        kept
                    } else {
                        old(self).arena.root(c)
                    }
                &&& forall|c: ChainRef|
                    #![trigger final(self).arena.root(c)]
                    old(self).arena.has_chain(c) ==> {
                        &&& old(self).arena.root(c) != lost ==> final(self).arena.root(c) == old(
                            self,
                        ).arena.root(c)
                        &&& c == linked ==> final(self).arena.root(c) == kept
                    }
                &&& forall|q: RepRef|
                    old(self).arena.has_rep(q) && q != kept ==> #[trigger] final(self).rep_weight(q)
                        == old(self).rep_weight(q)
            }),
            final(self).cell_class(aec) == old(self).cell_class(aec) || final(self).cell_class(aec)
                == old(self).cell_class(bec),
            forall|x: K|
                #[trigger] old(self).keys().contains(x) ==> final(self).class_of(x) == (if old(
                    self,
                ).class_of(x) == old(self).cell_class(aec) || old(self).class_of(x) == old(
                    self,
                ).cell_class(bec) {
                    final(self).cell_class(aec)
                } else {
                    old(self).class_of(x)
                }),
            forall|x: K|
                #[trigger] old(self).keys().contains(x) ==> final(self).key_rep(x) == old(self).key_rep(x)
                    || final(self).key_rep(x) == final(self).arena.root(aec),
    {
        let ghost a0 = self.arena;
        let arep = EquivClassChain::rep_of(&mut self.arena, aec);
        let ghost a1 = self.arena;
        let brep = EquivClassChain::rep_of(&mut self.arena, bec);
        let ghost a2 = self.arena;
        proof {
            assert forall|c: ChainRef| a0.has_chain(c) implies #[trigger] a2.root(c) == a0.root(c) by {
                assert(a1.has_chain(c));
                assert(a2.root(c) == a1.root(c));
            }
            assert(a2.root(aec) == a0.root(aec));
            assert(a2.root(bec) == a0.root(bec));
            assert forall|k: K| #[trigger] self.map@.contains_key(k) implies self.arena.has_chain(self.map@[k]) by {
                assert(old(self).map@.contains_key(k));
            }
        }
        if arep == brep {
            proof {
                assert forall|x: K| #[trigger] old(self).keys().contains(x) implies self.key_rep(x) == old(self).key_rep(x) by {
                    assert(a0.has_chain(old(self).map@[x]));
                }
            }
            true
        } else {
            let aw = self.arena.get_weight(arep);
            let bw = self.arena.get_weight(brep);
            let larger_chain;
            let larger_rep;
            let smaller_chain;
            let ghost smaller_rep;
            if aw >= bw {
                larger_chain = aec;
                larger_rep = arep;
                smaller_chain = bec;
                proof {
                    smaller_rep = brep;
                }
            } else {
                larger_chain = bec;
                larger_rep = brep;
                smaller_chain = aec;
                proof {
                    smaller_rep = arep;
                }
            }
            let ghost old_labels = self.labels@;
            let ghost ls = old_labels[smaller_rep.index as int];
            let ghost ll = old_labels[larger_rep.index as int];
            self.arena.link(smaller_chain, larger_chain);
            let ghost a3 = self.arena;
            self.arena.set_weight(larger_rep, aw.saturating_add(bw));
            proof {
                self.labels@ = Seq::new(old_labels.len(), |r: int| relabel(old_labels[r], ls, ll));
                let ch = a2.cells();
                let rk = a2.ranks();
                let s = smaller_chain.index as int;
                assert forall|c: ChainRef| a0.has_chain(c) implies #[trigger] self.arena.root(c) == (if reaches(ch, rk, c.index as int, s) {
                    larger_rep
                } else {
                    a0.root(c)
                }) && (reaches(ch, rk, c.index as int, s) ==> a0.root(c) == smaller_rep) by {
                    assert(a2.has_chain(c));
                    assert(a2.root(c) == a0.root(c));
                    assert(a2.root(larger_chain) == larger_rep);
                    assert(a2.root(smaller_chain) == smaller_rep);
                    assert(a3.root(c) == (if reaches(ch, rk, c.index as int, s) {
                        a2.root(larger_chain)
                    } else {
                        a2.root(c)
                    }));
                    assert(a3.root(c) == self.arena.root(c));
                    if reaches(ch, rk, c.index as int, s) {
                        lemma_reaches_same_root(ch, rk, a2.rep_count(), c.index as int, s);
                    }
                }
                assert(reaches(ch, rk, s, s));
                assert(self.arena.root(smaller_chain) == larger_rep);
                if !reaches(ch, rk, larger_chain.index as int, s) {
                    assert(self.arena.root(larger_chain) == larger_rep);
                }
                assert(self.arena.root(aec) == larger_rep);
                assert(self.arena.root(bec) == larger_rep);
                assert forall|r: int| 0 <= r < self.labels@.len() implies #[trigger] self.labels@[r] < self.labels@.len() by {
                    assert(old_labels[r] < old_labels.len());
                }
                old(self).lemma_root_has_rep(aec);
                old(self).lemma_root_has_rep(bec);
                assert(self.cell_class(aec) == ll);
                assert forall|x: K| #[trigger] old(self).keys().contains(x) implies self.class_of(x) == (if old(
                    self,
                ).class_of(x) == old(self).cell_class(aec) || old(self).class_of(x) == old(
                    self,
                ).cell_class(bec) {
                    self.cell_class(aec)
                } else {
                    old(self).class_of(x)
                }) && (self.key_rep(x) == old(self).key_rep(x) || self.key_rep(x) == self.arena.root(aec)) by {
                    let c = old(self).map@[x];
                    assert(a0.has_chain(c));
                    old(self).lemma_root_has_rep(c);
                }
            }
            false
        }
    }

    /// The label of the class of cell `c`.
    pub closed spec fn cell_class(&self, c: ChainRef) -> nat {
        self.labels@[self.arena.root(c).index as int]
    }

    /// The root of an existing cell is an existing representative.
    proof fn lemma_root_has_rep(&self, c: ChainRef)
        requires
            self.wf(),
            self.arena.has_chain(c),
        ensures
            self.arena.has_rep(self.arena.root(c)),
    {
        crate::chain::lemma_root_fuel(
            self.arena.cells(),
            self.arena.ranks(),
            self.arena.rep_count(),
            c.index as int,
            self.arena.ranks()[c.index as int],
        );
    }
}

impl<K: Eq + Hash> EquivClasses<K> {
    /// Reports whether keys `ak` and `bk` already had one representative, and puts
    /// them in one class, adding those not seen before.
    pub fn same_class(&mut self, ak: K, bk: K) -> (r: bool)
        requires
            old(self).wf(),
            obeys_key_model::<K>(),
        ensures
            Self::same_class_post(*old(self), *final(self), ak, bk, r),
    {
        let ao = match self.map.get(&ak) {
            Some(c) => Some(*c),
            None => None,
        };
        let bo = match self.map.get(&bk) {
            Some(c) => Some(*c),
            None => None,
        };
        let ghost s0 = *self;
        match (ao, bo) {
            (None, None) => {
                self.none_seen(ak, bk);
                proof {
                    let s1 = *self;
                    assert forall|x: K, y: K| #[trigger] s1.related(x, y) <==> s0.merged(ak, bk, x, y) by {
                        if s1.keys().contains(x) && s1.keys().contains(y) {
                            if s0.keys().contains(x) {
                                assert(s1.class_of(x) == s0.class_of(x));
                            }
                            if s0.keys().contains(y) {
                                assert(s1.class_of(y) == s0.class_of(y));
                            }
                        }
                    }
                }
                false
            },
            (Some(aec), None) => {
                self.some_seen(aec, bk);
                proof {
                    lemma_merge_join(s0, *self, ak, bk);
                }
                false
            },
            (None, Some(bec)) => {
                self.some_seen(bec, ak);
                proof {
                    lemma_merge_join(s0, *self, bk, ak);
                }
                false
            },
            (Some(aec), Some(bec)) => {
                let r = self.all_seen(aec, bec);
                proof {
                    let s1 = *self;
                    assert(s1.keys() =~= s0.keys().insert(ak).insert(bk));
                    assert forall|x: K| #[trigger] s0.keys().contains(x) implies s0.arena.has_chain(s0.key_cell(x))
                        && s0.arena.has_rep(s0.key_rep(x)) && s1.key_cell(x) == s0.key_cell(x) by {
                        s0.lemma_root_has_rep(s0.map@[x]);
                    }
                    assert(s0.key_cell(ak) == aec);
                    assert(s0.key_cell(bk) == bec);
                    assert(s0.class_of(ak) == s0.cell_class(aec));
                    assert(s0.class_of(bk) == s0.cell_class(bec));
                    assert forall|x: K, y: K| #[trigger] s1.related(x, y) <==> s0.merged(ak, bk, x, y) by {
                        if s1.keys().contains(x) && s1.keys().contains(y) {
                            assert(s0.keys().contains(x));
                            assert(s0.keys().contains(y));
                            assert(s1.class_of(x) == (if s0.class_of(x) == s0.cell_class(aec) || s0.class_of(x) == s0.cell_class(bec) {
                                s1.cell_class(aec)
                            } else {
                                s0.class_of(x)
                            }));
                            assert(s1.class_of(y) == (if s0.class_of(y) == s0.cell_class(aec) || s0.class_of(y) == s0.cell_class(bec) {
                                s1.cell_class(aec)
                            } else {
                                s0.class_of(y)
                            }));
                        }
                    }
                }
                r
            },
        }
    }
}

/// Adding the unseen key `b` to the class of the seen key `a` is the merge of
/// their classes.
proof fn lemma_merge_join<K: Eq + Hash>(s0: EquivClasses<K>, s1: EquivClasses<K>, a: K, b: K)
    requires
        s1.wf(),
        s0.keys().contains(a),
        !s0.keys().contains(b),
        s1.keys() == s0.keys().insert(b),
        forall|x: K|
            #[trigger] s0.keys().contains(x) ==> s1.key_rep(x) == s0.key_rep(x) && s1.class_of(x)
                == s0.class_of(x),
        s1.key_rep(b) == s0.key_rep(a),
        s1.class_of(b) == s0.class_of(a),
        EquivClasses::keeps_cells(s0, s1),
        EquivClasses::fresh_cell(s0, s1, b, s0.key_rep(a)),
        EquivClasses::keeps_end_cells(s0, s1, false, ChainRef { index: 0 }),
        forall|q: RepRef| #[trigger] s1.rep_weight(q) == s0.rep_weight(q),
        s1.cells() == split_path(s0.cells(), s0.ranks(), s0.key_cell(a).index as int).push(
            EquivClassChain::End(s0.key_rep(a)),
        ),
    ensures
        EquivClasses::same_class_post(s0, s1, a, b, false),
        EquivClasses::same_class_post(s0, s1, b, a, false),
{
    assert(s1.keys() =~= s0.keys().insert(a).insert(b));
    assert(s1.keys() =~= s0.keys().insert(b).insert(a));
    assert(s1.key_rep(a) == s0.key_rep(a));
    assert forall|x: K, y: K| #[trigger] s1.related(x, y) <==> s0.merged(a, b, x, y) by {
        if s1.keys().contains(x) && s1.keys().contains(y) {
            if s0.keys().contains(x) {
                assert(s1.class_of(x) == s0.class_of(x));
            }
            if s0.keys().contains(y) {
                assert(s1.class_of(y) == s0.class_of(y));
            }
        }
    }
    assert forall|x: K, y: K| #[trigger] s1.related(x, y) <==> s0.merged(b, a, x, y) by {
        assert(s1.related(x, y) <==> s0.merged(a, b, x, y));
    }
}

/// Keys that share a representative have been put in one class by the calls so
/// far: this is what makes a `true` answer of `same_class` sound.
pub proof fn lemma_same_rep_is_related<K: Eq + Hash>(s: EquivClasses<K>, x: K, y: K)
    requires
        s.wf(),
        s.same_rep(x, y),
    ensures
        s.related(x, y),
{
}

/// `related` is an equivalence relation on the keys seen.
pub proof fn lemma_related_is_equivalence<K: Eq + Hash>(s: EquivClasses<K>, x: K, y: K, z: K)
    requires
        s.wf(),
    ensures
        s.keys().contains(x) ==> s.related(x, x),
        s.related(x, y) ==> s.related(y, x),
        s.related(x, y) && s.related(y, z) ==> s.related(x, z),
{
}

/// Classes only grow: keys related before a call stay related after it.
pub proof fn lemma_same_class_keeps_relation<K: Eq + Hash>(
    s0: EquivClasses<K>,
    s1: EquivClasses<K>,
    a: K,
    b: K,
    r: bool,
    x: K,
    y: K,
)
    requires
        EquivClasses::same_class_post(s0, s1, a, b, r),
        s0.related(x, y),
    ensures
        s1.related(x, y),
{
    assert(s0.merged(a, b, x, y));
}

/// After `same_class(a, b)`, asking again answers `true`.
pub proof fn lemma_same_class_twice<K: Eq + Hash>(
    s0: EquivClasses<K>,
    s1: EquivClasses<K>,
    s2: EquivClasses<K>,
    a: K,
    b: K,
    r1: bool,
    r2: bool,
)
    requires
        EquivClasses::same_class_post(s0, s1, a, b, r1),
        EquivClasses::same_class_post(s1, s2, a, b, r2),
    ensures
        r2,
{
}

/// The order of the two keys changes neither the answer nor the classes after.
pub proof fn lemma_same_class_symmetric<K: Eq + Hash>(
    s0: EquivClasses<K>,
    s1: EquivClasses<K>,
    s2: EquivClasses<K>,
    a: K,
    b: K,
    r1: bool,
    r2: bool,
    x: K,
    y: K,
)
    requires
        EquivClasses::same_class_post(s0, s1, a, b, r1),
        EquivClasses::same_class_post(s0, s2, b, a, r2),
    ensures
        r1 == r2,
        s1.related(x, y) == s2.related(x, y),
{
    assert(s0.keys().insert(a).insert(b) =~= s0.keys().insert(b).insert(a));
    assert(s1.related(x, y) == s0.merged(a, b, x, y));
    assert(s2.related(x, y) == s0.merged(b, a, x, y));
}

/// A `true` answer comes only for keys already related, and changes no class
/// and no later answer.
pub proof fn lemma_same_class_true<K: Eq + Hash>(
    s0: EquivClasses<K>,
    s1: EquivClasses<K>,
    a: K,
    b: K,
    x: K,
    y: K,
)
    requires
        s0.wf(),
        EquivClasses::same_class_post(s0, s1, a, b, true),
    ensures
        s0.related(a, b),
        s1.related(x, y) == s0.related(x, y),
        s1.same_rep(x, y) == s0.same_rep(x, y),
{
    assert(s0.keys().insert(a).insert(b) =~= s0.keys());
    if s0.keys().contains(x) && s0.keys().contains(y) {
        assert(s1.key_rep(x) == s0.key_rep(x));
        assert(s1.key_rep(y) == s0.key_rep(y));
    }
    assert(s1.related(x, y) == s0.merged(a, b, x, y));
    if s0.merged(a, b, x, y) {
        lemma_related_is_equivalence(s0, x, a, b);
        lemma_related_is_equivalence(s0, x, b, a);
        lemma_related_is_equivalence(s0, a, b, y);
        lemma_related_is_equivalence(s0, b, a, y);
        lemma_related_is_equivalence(s0, x, a, y);
        lemma_related_is_equivalence(s0, x, b, y);
    }
}

/// What `same_class(a, b)` does to the cells before the call.  A cell on the
/// chain of neither key (as the chains were before the call) keeps its content,
/// except the one cell a merge links, and that cell then links straight to the
/// cell of the other key.  No cell goes away.
pub proof fn lemma_same_class_cells<K: Eq + Hash>(s0: EquivClasses<K>, s1: EquivClasses<K>, a: K, b: K, r: bool)
    requires
        s0.wf(),
        EquivClasses::same_class_post(s0, s1, a, b, r),
    ensures
        s1.cell_count() >= s0.cell_count(),
        s0.keys().contains(a) && s0.keys().contains(b) && !r ==> s1.cell(
            s0.key_cell(EquivClasses::merge_linked(s0, a, b)),
        ) == EquivClassChain::Next(s0.key_cell(EquivClasses::merge_kept(s0, a, b))),
        forall|c: ChainRef|
            #![trigger s1.cell(c)]
            c.index < s0.cell_count() && !(s0.keys().contains(a) && reaches(
                s0.cells(),
                s0.ranks(),
                s0.key_cell(a).index as int,
                c.index as int,
            )) && !(s0.keys().contains(b) && reaches(s0.cells(), s0.ranks(), s0.key_cell(b).index as int, c.index as int))
                && !(s0.keys().contains(a) && s0.keys().contains(b) && !r && c == s0.key_cell(
                EquivClasses::merge_linked(s0, a, b),
            )) ==> s1.cell(c) == s0.cell(c),
{
    let ch = s0.arena.cells();
    let rk = s0.arena.ranks();
    let n = s0.arena.rep_count();
    let seen_a = s0.keys().contains(a);
    let seen_b = s0.keys().contains(b);
    if seen_a {
        assert(s0.arena.has_chain(s0.map@[a]));
        lemma_split_wf(ch, rk, n, s0.map@[a].index as int);
    }
    if seen_b {
        assert(s0.arena.has_chain(s0.map@[b]));
    }
    assert forall|c: ChainRef|
        #![trigger s1.cell(c)]
        c.index < s0.cell_count() && !(seen_a && reaches(ch, rk, s0.key_cell(a).index as int, c.index as int))
            && !(seen_b && reaches(ch, rk, s0.key_cell(b).index as int, c.index as int)) && !(seen_a && seen_b
            && !r && c == s0.key_cell(EquivClasses::merge_linked(s0, a, b))) implies s1.cell(c) == s0.cell(c) by {
        if seen_a && seen_b {
            let once = split_path(ch, rk, s0.map@[a].index as int);
            assert(once[c.index as int] == ch[c.index as int]);
            if reaches(once, rk, s0.map@[b].index as int, c.index as int) {
                lemma_split_reaches(ch, rk, n, s0.map@[a].index as int, s0.map@[b].index as int, c.index as int);
            }
            assert(s0.searched_cells(a, b)[c.index as int] == ch[c.index as int]);
        }
    }
}

/// A key whose cell ends its chain passes, after any searches, through no
/// other cell: a merge leaves it where it is unless its own cell is linked.
pub proof fn lemma_end_cell_passes_nowhere<K: Eq + Hash>(s: EquivClasses<K>, a: K, b: K, x: K, t: K)
    requires
        s.wf(),
        s.keys().contains(x),
        s.cell(s.key_cell(x)) is End,
        s.key_cell(x) != s.key_cell(t),
    ensures
        !s.passes_after_searches(a, b, x, t),
{
    let ch = s.arena.cells();
    let rk = s.arena.ranks();
    let cx = s.map@[x].index as int;
    assert(s.arena.has_chain(s.map@[x]));
    let once = split_path(ch, rk, s.map@[a].index as int);
    assert(once[cx] == ch[cx]);
    assert(s.searched_cells(a, b)[cx] == ch[cx]);
    assert(s.map@[x] != s.map@[t]);
    assert(cx != s.map@[t].index as int);
}

/// A key not seen before makes the answer `false`, and changes no answer
/// between keys seen before.
pub proof fn lemma_same_class_new_key<K: Eq + Hash>(
    s0: EquivClasses<K>,
    s1: EquivClasses<K>,
    a: K,
    b: K,
    r: bool,
    x: K,
    y: K,
)
    requires
        EquivClasses::same_class_post(s0, s1, a, b, r),
        !s0.keys().contains(a) || !s0.keys().contains(b),
    ensures
        !r,
        s0.keys().contains(x) && s0.keys().contains(y) ==> s1.same_rep(x, y) == s0.same_rep(x, y),
{
    if s0.keys().contains(x) && s0.keys().contains(y) {
        assert(s1.key_rep(x) == s0.key_rep(x));
        assert(s1.key_rep(y) == s0.key_rep(y));
    }
}

} // verus!
