//! Chains of equivalence-class cells, held in an arena.
//!
//! Each cell is either the end of its chain, naming the representative of its
//! class, or points to a further cell.  Cells and representatives are named by
//! their index in the arena, so that identity of a representative is identity of
//! its index.

use vstd::prelude::*;

verus! {

/// The representative of an equivalence class.  Only its identity (its place in
/// the arena) and its weight matter.
pub struct Representative {
    pub weight: usize,
}

/// Names a representative held in a [`ClassArena`].
#[derive(Clone, Copy, PartialEq, Eq, Structural, Debug)]
pub struct RepRef {
    pub index: usize,
}

/// Names a chain cell held in a [`ClassArena`].
#[derive(Clone, Copy, PartialEq, Eq, Structural, Debug)]
pub struct ChainRef {
    pub index: usize,
}

/// A chain cell: either the end of the chain, naming the class's representative,
/// or a link to the next cell of the chain.
#[derive(Clone, Copy, Debug)]
pub enum EquivClassChain {
    End(RepRef),
    Next(ChainRef),
}

/// The cells and representatives of all chains.
///
/// `rank` is a ghost measure that strictly decreases along every link, which
/// shows that every chain ends.
pub struct ClassArena {
    reps: Vec<Representative>,
    chains: Vec<EquivClassChain>,
    rank: Ghost<Seq<nat>>,
}

/// Whether cell `c` is well linked: its representative exists, or it links to an
/// existing cell of smaller rank.
pub open spec fn link_ok(chains: Seq<EquivClassChain>, rank: Seq<nat>, nreps: nat, c: int) -> bool {
    match chains[c] {
        EquivClassChain::End(r) => r.index < nreps,
        EquivClassChain::Next(d) => d.index < chains.len() && rank[d.index as int] < rank[c],
    }
}

/// The arena invariant, over plain sequences.
pub open spec fn chains_wf(chains: Seq<EquivClassChain>, rank: Seq<nat>, nreps: nat) -> bool {
    &&& rank.len() == chains.len()
    &&& forall|c: int| 0 <= c < chains.len() ==> #[trigger] link_ok(chains, rank, nreps, c)
}

/// The representative found by following at most `fuel` links from cell `c`.
pub open spec fn root_fuel(chains: Seq<EquivClassChain>, c: int, fuel: nat) -> RepRef
    decreases fuel,
{
    match chains[c] {
        EquivClassChain::End(r) => r,
        EquivClassChain::Next(d) => if fuel > 0 {
            root_fuel(chains, d.index as int, (fuel - 1) as nat)
        } else {
            RepRef { index: 0 }
        },
    }
}

/// The representative at the end of the chain that starts at cell `c`.
pub open spec fn root_of(chains: Seq<EquivClassChain>, rank: Seq<nat>, c: int) -> RepRef {
    root_fuel(chains, c, rank[c])
}

/// Whether cell `t` lies on the chain from cell `c`, within `fuel` links.
pub open spec fn reaches_fuel(chains: Seq<EquivClassChain>, c: int, t: int, fuel: nat) -> bool
    decreases fuel,
{
    c == t || (fuel > 0 && match chains[c] {
        EquivClassChain::End(_) => false,
        EquivClassChain::Next(d) => reaches_fuel(chains, d.index as int, t, (fuel - 1) as nat),
    })
}

/// Whether cell `t` lies on the chain from cell `c`.
pub open spec fn reaches(chains: Seq<EquivClassChain>, rank: Seq<nat>, c: int, t: int) -> bool {
    reaches_fuel(chains, c, t, rank[c])
}

/// More fuel than the rank of a cell does not change its root, and the root exists.
pub proof fn lemma_root_fuel(
    chains: Seq<EquivClassChain>,
    rank: Seq<nat>,
    nreps: nat,
    c: int,
    fuel: nat,
)
    requires
        chains_wf(chains, rank, nreps),
        0 <= c < chains.len(),
        fuel >= rank[c],
    ensures
        root_fuel(chains, c, fuel) == root_of(chains, rank, c),
        root_of(chains, rank, c).index < nreps,
    decreases rank[c],
{
    assert(link_ok(chains, rank, nreps, c));
    match chains[c] {
        EquivClassChain::End(r) => {},
        EquivClassChain::Next(d) => {
            lemma_root_fuel(chains, rank, nreps, d.index as int, (fuel - 1) as nat);
            lemma_root_fuel(chains, rank, nreps, d.index as int, (rank[c] - 1) as nat);
        },
    }
}

/// A link does not change the root: a cell has the root of the cell it links to.
pub proof fn lemma_root_next(chains: Seq<EquivClassChain>, rank: Seq<nat>, nreps: nat, c: int)
    requires
        chains_wf(chains, rank, nreps),
        0 <= c < chains.len(),
        chains[c] is Next,
    ensures
        root_of(chains, rank, c) == root_of(chains, rank, chains[c]->Next_0.index as int),
{
    assert(link_ok(chains, rank, nreps, c));
    let d = chains[c]->Next_0.index as int;
    lemma_root_fuel(chains, rank, nreps, d, (rank[c] - 1) as nat);
}

/// Redirecting one cell to a later cell of its own chain keeps every root.
pub proof fn lemma_redirect_keeps_roots(
    chains: Seq<EquivClassChain>,
    rank: Seq<nat>,
    nreps: nat,
    cur: int,
    t: ChainRef,
    x: int,
)
    requires
        chains_wf(chains, rank, nreps),
        chains_wf(chains.update(cur, EquivClassChain::Next(t)), rank, nreps),
        0 <= cur < chains.len(),
        0 <= t.index < chains.len(),
        root_of(chains, rank, t.index as int) == root_of(chains, rank, cur),
        0 <= x < chains.len(),
    ensures
        root_of(chains.update(cur, EquivClassChain::Next(t)), rank, x) == root_of(chains, rank, x),
    decreases rank[x],
{
    let new_chains = chains.update(cur, EquivClassChain::Next(t));
    assert(link_ok(new_chains, rank, nreps, x));
    assert(link_ok(chains, rank, nreps, x));
    if x == cur {
        lemma_root_next(new_chains, rank, nreps, x);
        lemma_redirect_keeps_roots(chains, rank, nreps, cur, t, t.index as int);
    } else {
        match chains[x] {
            EquivClassChain::End(r) => {},
            EquivClassChain::Next(d) => {
                lemma_root_next(new_chains, rank, nreps, x);
                lemma_root_next(chains, rank, nreps, x);
                lemma_redirect_keeps_roots(chains, rank, nreps, cur, t, d.index as int);
            },
        }
    }
}

/// Adding a cell keeps the roots of the cells already there.
pub proof fn lemma_push_keeps_roots(
    chains: Seq<EquivClassChain>,
    rank: Seq<nat>,
    nreps: nat,
    cell: EquivClassChain,
    cell_rank: nat,
    nreps2: nat,
    x: int,
)
    requires
        chains_wf(chains, rank, nreps),
        nreps <= nreps2,
        0 <= x < chains.len(),
    ensures
        root_of(chains.push(cell), rank.push(cell_rank), x) == root_of(chains, rank, x),
    decreases rank[x],
{
    assert(link_ok(chains, rank, nreps, x));
    let new_chains = chains.push(cell);
    let new_rank = rank.push(cell_rank);
    assert(new_chains[x] == chains[x]);
    assert(new_rank[x] == rank[x]);
    match chains[x] {
        EquivClassChain::End(r) => {},
        EquivClassChain::Next(d) => {
            lemma_root_fuel(chains, rank, nreps, d.index as int, (rank[x] - 1) as nat);
            lemma_push_keeps_roots(chains, rank, nreps, cell, cell_rank, nreps2, d.index as int);
            assert(new_rank[d.index as int] == rank[d.index as int]);
            lemma_push_fuel(chains, cell, d.index as int, (rank[x] - 1) as nat, rank, nreps);
        },
    }
}

/// Following links from an existing cell never reaches a newly added cell.
proof fn lemma_push_fuel(
    chains: Seq<EquivClassChain>,
    cell: EquivClassChain,
    c: int,
    fuel: nat,
    rank: Seq<nat>,
    nreps: nat,
)
    requires
        chains_wf(chains, rank, nreps),
        0 <= c < chains.len(),
    ensures
        root_fuel(chains.push(cell), c, fuel) == root_fuel(chains, c, fuel),
    decreases fuel,
{
    assert(link_ok(chains, rank, nreps, c));
    assert(chains.push(cell)[c] == chains[c]);
    match chains[c] {
        EquivClassChain::End(r) => {},
        EquivClassChain::Next(d) => {
            if fuel > 0 {
                lemma_push_fuel(chains, cell, d.index as int, (fuel - 1) as nat, rank, nreps);
            }
        },
    }
}

/// More fuel keeps a cell reachable.
pub proof fn lemma_reaches_more_fuel(chains: Seq<EquivClassChain>, c: int, t: int, f1: nat, f2: nat)
    requires
        reaches_fuel(chains, c, t, f1),
        f1 <= f2,
    ensures
        reaches_fuel(chains, c, t, f2),
    decreases f1,
{
    if c != t {
        match chains[c] {
            EquivClassChain::End(_) => {},
            EquivClassChain::Next(d) => {
                lemma_reaches_more_fuel(chains, d.index as int, t, (f1 - 1) as nat, (f2 - 1) as nat);
            },
        }
    }
}

/// A cell that is reachable at all is reachable within the rank of the start.
pub proof fn lemma_reaches_within_rank(
    chains: Seq<EquivClassChain>,
    rank: Seq<nat>,
    nreps: nat,
    c: int,
    t: int,
    fuel: nat,
)
    requires
        chains_wf(chains, rank, nreps),
        0 <= c < chains.len(),
        reaches_fuel(chains, c, t, fuel),
    ensures
        reaches(chains, rank, c, t),
    decreases fuel,
{
    assert(link_ok(chains, rank, nreps, c));
    if c != t {
        match chains[c] {
            EquivClassChain::End(_) => {},
            EquivClassChain::Next(d) => {
                lemma_reaches_within_rank(chains, rank, nreps, d.index as int, t, (fuel - 1) as nat);
                lemma_reaches_more_fuel(
                    chains,
                    d.index as int,
                    t,
                    rank[d.index as int],
                    (rank[c] - 1) as nat,
                );
            },
        }
    }
}

/// A cell that links to a cell reaching `t` reaches `t` too.
pub proof fn lemma_reaches_step(
    chains: Seq<EquivClassChain>,
    rank: Seq<nat>,
    nreps: nat,
    x: int,
    t: int,
)
    requires
        chains_wf(chains, rank, nreps),
        0 <= x < chains.len(),
        chains[x] is Next,
        reaches(chains, rank, chains[x]->Next_0.index as int, t),
    ensures
        reaches(chains, rank, x, t),
{
    assert(link_ok(chains, rank, nreps, x));
    let d = chains[x]->Next_0.index as int;
    lemma_reaches_more_fuel(chains, d, t, rank[d], (rank[x] - 1) as nat);
}

/// A cell other than `t` reaches `t` only through the cell it links to.
pub proof fn lemma_reaches_unstep(
    chains: Seq<EquivClassChain>,
    rank: Seq<nat>,
    nreps: nat,
    x: int,
    t: int,
)
    requires
        chains_wf(chains, rank, nreps),
        0 <= x < chains.len(),
        x != t,
        reaches(chains, rank, x, t),
    ensures
        chains[x] is Next,
        reaches(chains, rank, chains[x]->Next_0.index as int, t),
{
    assert(link_ok(chains, rank, nreps, x));
    let d = chains[x]->Next_0.index as int;
    lemma_reaches_within_rank(chains, rank, nreps, d, t, (rank[x] - 1) as nat);
}

/// Cells on one chain share their root.
pub proof fn lemma_reaches_same_root(
    chains: Seq<EquivClassChain>,
    rank: Seq<nat>,
    nreps: nat,
    x: int,
    t: int,
)
    requires
        chains_wf(chains, rank, nreps),
        0 <= x < chains.len(),
        reaches(chains, rank, x, t),
    ensures
        root_of(chains, rank, x) == root_of(chains, rank, t),
    decreases rank[x],
{
    if x != t {
        lemma_reaches_unstep(chains, rank, nreps, x, t);
        let d = chains[x]->Next_0.index as int;
        assert(link_ok(chains, rank, nreps, x));
        lemma_root_next(chains, rank, nreps, x);
        lemma_reaches_same_root(chains, rank, nreps, d, t);
    }
}

/// The cell two links after cell `c`, when its chain goes on that far.
pub open spec fn two_ahead(chains: Seq<EquivClassChain>, c: int) -> Option<ChainRef> {
    match chains[c] {
        EquivClassChain::Next(d) => match chains[d.index as int] {
            EquivClassChain::Next(e) => Some(e),
            EquivClassChain::End(_) => None,
        },
        EquivClassChain::End(_) => None,
    }
}

/// The cells after path splitting along the chain from cell `it`: every cell of
/// that chain with a cell two links further on links there; all other cells stay.
pub open spec fn split_path(chains: Seq<EquivClassChain>, rank: Seq<nat>, it: int) -> Seq<EquivClassChain> {
    Seq::new(
        chains.len(),
        |c: int|
            if reaches(chains, rank, it, c) && two_ahead(chains, c) is Some {
                EquivClassChain::Next(two_ahead(chains, c)->0)
            } else {
                chains[c]
            },
    )
}

/// Reaching is transitive.
proof fn lemma_reaches_trans(chains: Seq<EquivClassChain>, rank: Seq<nat>, nreps: nat, x: int, y: int, t: int)
    requires
        chains_wf(chains, rank, nreps),
        0 <= x < chains.len(),
        reaches(chains, rank, x, y),
        reaches(chains, rank, y, t),
    ensures
        reaches(chains, rank, x, t),
    decreases rank[x],
{
    if x != y {
        lemma_reaches_unstep(chains, rank, nreps, x, y);
        let d = chains[x]->Next_0.index as int;
        assert(link_ok(chains, rank, nreps, x));
        lemma_reaches_trans(chains, rank, nreps, d, y, t);
        lemma_reaches_step(chains, rank, nreps, x, t);
    }
}

/// Splitting a path keeps the arena well formed, with the same ranks.
pub proof fn lemma_split_wf(chains: Seq<EquivClassChain>, rank: Seq<nat>, nreps: nat, it: int)
    requires
        chains_wf(chains, rank, nreps),
    ensures
        chains_wf(split_path(chains, rank, it), rank, nreps),
{
    let sp = split_path(chains, rank, it);
    assert forall|c: int| 0 <= c < sp.len() implies #[trigger] link_ok(sp, rank, nreps, c) by {
        assert(link_ok(chains, rank, nreps, c));
        if reaches(chains, rank, it, c) && two_ahead(chains, c) is Some {
            let d = chains[c]->Next_0.index as int;
            assert(link_ok(chains, rank, nreps, d));
        }
    }
}

/// Splitting a path only shortens chains: what a cell reaches afterwards it
/// reached before.
pub proof fn lemma_split_reaches(chains: Seq<EquivClassChain>, rank: Seq<nat>, nreps: nat, it: int, x: int, t: int)
    requires
        chains_wf(chains, rank, nreps),
        0 <= x < chains.len(),
        reaches(split_path(chains, rank, it), rank, x, t),
    ensures
        reaches(chains, rank, x, t),
    decreases rank[x],
{
    let sp = split_path(chains, rank, it);
    lemma_split_wf(chains, rank, nreps, it);
    if x != t {
        lemma_reaches_unstep(sp, rank, nreps, x, t);
        assert(link_ok(sp, rank, nreps, x));
        assert(link_ok(chains, rank, nreps, x));
        let e = sp[x]->Next_0.index as int;
        lemma_split_reaches(chains, rank, nreps, it, e, t);
        if reaches(chains, rank, it, x) && two_ahead(chains, x) is Some {
            let d = chains[x]->Next_0.index as int;
            assert(link_ok(chains, rank, nreps, d));
            lemma_reaches_step(chains, rank, nreps, d, t);
            lemma_reaches_step(chains, rank, nreps, x, t);
        } else {
            lemma_reaches_step(chains, rank, nreps, x, t);
        }
    }
}

/// A cell reachable from `x` has at most the rank of `x`.
proof fn lemma_rank_at_most(chains: Seq<EquivClassChain>, rank: Seq<nat>, nreps: nat, x: int, t: int)
    requires
        chains_wf(chains, rank, nreps),
        0 <= x < chains.len(),
        reaches(chains, rank, x, t),
    ensures
        rank[t] <= rank[x],
{
    if x != t {
        lemma_rank_below(chains, rank, nreps, x, t);
    }
}

/// The ranks after linking cell `s` to cell `l`: every cell whose chain passes
/// through `s` is lifted above `l`.
pub open spec fn linked_rank(chains: Seq<EquivClassChain>, rank: Seq<nat>, s: int, l: int) -> Seq<nat> {
    Seq::new(
        rank.len(),
        |x: int|
            if reaches(chains, rank, x, s) {
                rank[x] + rank[l] + 1
            } else {
                rank[x]
            },
    )
}

/// Linking a cell to a cell of another class keeps the arena invariant with the
/// lifted ranks.
pub proof fn lemma_link_wf(chains: Seq<EquivClassChain>, rank: Seq<nat>, nreps: nat, s: int, l: ChainRef)
    requires
        chains_wf(chains, rank, nreps),
        0 <= s < chains.len(),
        0 <= l.index < chains.len(),
        root_of(chains, rank, l.index as int) != root_of(chains, rank, s),
    ensures
        chains_wf(
            chains.update(s, EquivClassChain::Next(l)),
            linked_rank(chains, rank, s, l.index as int),
            nreps,
        ),
        !reaches(chains, rank, l.index as int, s),
{
    let new_chains = chains.update(s, EquivClassChain::Next(l));
    let new_rank = linked_rank(chains, rank, s, l.index as int);
    if reaches(chains, rank, l.index as int, s) {
        lemma_reaches_same_root(chains, rank, nreps, l.index as int, s);
    }
    assert forall|x: int| 0 <= x < new_chains.len() implies #[trigger] link_ok(
        new_chains,
        new_rank,
        nreps,
        x,
    ) by {
        assert(link_ok(chains, rank, nreps, x));
        if x == s {
            assert(reaches_fuel(chains, s, s, rank[s]));
        } else {
            match chains[x] {
                EquivClassChain::End(r) => {},
                EquivClassChain::Next(d) => {
                    if reaches(chains, rank, d.index as int, s) {
                        lemma_reaches_step(chains, rank, nreps, x, s);
                    }
                },
            }
        }
    }
}

/// After linking cell `s` to cell `l`, the cells whose chain passed through `s`
/// have the root of `l`; all other cells keep their root.
pub proof fn lemma_link_roots(
    chains: Seq<EquivClassChain>,
    rank: Seq<nat>,
    nreps: nat,
    s: int,
    l: ChainRef,
    x: int,
)
    requires
        chains_wf(chains, rank, nreps),
        0 <= s < chains.len(),
        0 <= l.index < chains.len(),
        root_of(chains, rank, l.index as int) != root_of(chains, rank, s),
        0 <= x < chains.len(),
    ensures
        root_of(
            chains.update(s, EquivClassChain::Next(l)),
            linked_rank(chains, rank, s, l.index as int),
            x,
        ) == (if reaches(chains, rank, x, s) {
            root_of(chains, rank, l.index as int)
        } else {
            root_of(chains, rank, x)
        }),
    decreases linked_rank(chains, rank, s, l.index as int)[x],
{
    let new_chains = chains.update(s, EquivClassChain::Next(l));
    let new_rank = linked_rank(chains, rank, s, l.index as int);
    lemma_link_wf(chains, rank, nreps, s, l);
    assert(link_ok(new_chains, new_rank, nreps, x));
    assert(link_ok(chains, rank, nreps, x));
    if x == s {
        assert(reaches_fuel(chains, s, s, rank[s]));
        lemma_root_next(new_chains, new_rank, nreps, x);
        lemma_link_roots(chains, rank, nreps, s, l, l.index as int);
    } else {
        match chains[x] {
            EquivClassChain::End(r) => {
                assert(!reaches(chains, rank, x, s));
            },
            EquivClassChain::Next(d) => {
                lemma_root_next(new_chains, new_rank, nreps, x);
                lemma_root_next(chains, rank, nreps, x);
                lemma_link_roots(chains, rank, nreps, s, l, d.index as int);
                if reaches(chains, rank, x, s) {
                    lemma_reaches_unstep(chains, rank, nreps, x, s);
                }
                if reaches(chains, rank, d.index as int, s) {
                    lemma_reaches_step(chains, rank, nreps, x, s);
                }
            },
        }
    }
}

impl ClassArena {
    /// The arena invariant.
    pub open spec fn wf(&self) -> bool {
        chains_wf(self.cells(), self.ranks(), self.rep_count())
    }

    /// The cells, in arena order.
    pub closed spec fn cells(&self) -> Seq<EquivClassChain> {
        self.chains@
    }

    /// The ranks of the cells.
    pub closed spec fn ranks(&self) -> Seq<nat> {
        self.rank@
    }

    /// The number of representatives.
    pub closed spec fn rep_count(&self) -> nat {
        self.reps@.len()
    }

    /// The weight of a representative.
    pub closed spec fn weight(&self, r: RepRef) -> usize {
        self.reps@[r.index as int].weight
    }

    /// Whether a cell exists in this arena.
    pub open spec fn has_chain(&self, c: ChainRef) -> bool {
        c.index < self.cells().len()
    }

    /// Whether a representative exists in this arena.
    pub open spec fn has_rep(&self, r: RepRef) -> bool {
        r.index < self.rep_count()
    }

    /// The representative at the end of the chain from cell `c`.
    pub open spec fn root(&self, c: ChainRef) -> RepRef {
        root_of(self.cells(), self.ranks(), c.index as int)
    }

    /// An empty arena.
    pub fn new() -> (arena: Self)
        ensures
            arena.wf(),
            arena.cells() == Seq::<EquivClassChain>::empty(),
            arena.rep_count() == 0,
    {
        ClassArena { reps: Vec::new(), chains: Vec::new(), rank: Ghost(Seq::empty()) }
    }

    /// Adds a cell holding `chain`, which must name an existing representative or
    /// cell.  The cells already there keep their roots.
    pub fn alloc_chain(&mut self, chain: EquivClassChain) -> (c: ChainRef)
        requires
            old(self).wf(),
            match chain {
                EquivClassChain::End(r) => old(self).has_rep(r),
                EquivClassChain::Next(d) => old(self).has_chain(d),
            },
        ensures
            final(self).wf(),
            c.index == old(self).cells().len(),
            final(self).cells() == old(self).cells().push(chain),
            final(self).rep_count() == old(self).rep_count(),
            forall|r: RepRef| #[trigger] final(self).weight(r) == old(self).weight(r),
            forall|x: ChainRef|
                old(self).has_chain(x) ==> #[trigger] final(self).root(x) == old(self).root(x),
            final(self).root(c) == match chain {
                EquivClassChain::End(r) => r,
                EquivClassChain::Next(d) => old(self).root(d),
            },
    {
        let ghost old_chains = self.chains@;
        let ghost old_rank = self.rank@;
        let ghost nreps = self.reps@.len();
        let ghost cell_rank: nat = match chain {
            EquivClassChain::End(_) => 0,
            EquivClassChain::Next(d) => old_rank[d.index as int] + 1,
        };
        let c = ChainRef { index: self.chains.len() };
        self.chains.push(chain);
        proof {
            self.rank@ = old_rank.push(cell_rank);
        }
        proof {
            let new_chains = self.chains@;
            let new_rank = self.rank@;
            assert forall|x: int| 0 <= x < new_chains.len() implies #[trigger] link_ok(
                new_chains,
                new_rank,
                nreps,
                x,
            ) by {
                if x < old_chains.len() {
                    assert(link_ok(old_chains, old_rank, nreps, x));
                    assert(new_chains[x] == old_chains[x]);
                }
            }
            assert forall|x: ChainRef| old(self).has_chain(x) implies #[trigger] self.root(x) == old(
                self,
            ).root(x) by {
                lemma_push_keeps_roots(old_chains, old_rank, nreps, chain, cell_rank, nreps, x.index as int);
            }
            match chain {
                EquivClassChain::End(_) => {},
                EquivClassChain::Next(d) => {
                    lemma_root_next(new_chains, new_rank, nreps, c.index as int);
                    lemma_push_keeps_roots(old_chains, old_rank, nreps, chain, cell_rank, nreps, d.index as int);
                },
            }
        }
        c
    }

    /// Adds a representative of the given weight.
    pub fn alloc_rep(&mut self, weight: usize) -> (r: RepRef)
        requires
            old(self).wf(),
        ensures
            final(self).wf(),
            r.index == old(self).rep_count(),
            final(self).rep_count() == old(self).rep_count() + 1,
            final(self).cells() == old(self).cells(),
            final(self).ranks() == old(self).ranks(),
            final(self).weight(r) == weight,
            forall|q: RepRef| old(self).has_rep(q) ==> #[trigger] final(self).weight(q) == old(self).weight(q),
    {
        let r = RepRef { index: self.reps.len() };
        self.reps.push(Representative { weight });
        proof {
            let n = self.reps@.len();
            assert forall|x: int| 0 <= x < self.chains@.len() implies #[trigger] link_ok(
                self.chains@,
                self.rank@,
                n,
                x,
            ) by {
                assert(link_ok(self.chains@, self.rank@, (n - 1) as nat, x));
            }
        }
        r
    }

    /// The weight of a representative.
    pub fn get_weight(&self, r: RepRef) -> (w: usize)
        requires
            self.has_rep(r),
        ensures
            w == self.weight(r),
    {
        self.reps[r.index].weight
    }

    /// Sets the weight of a representative.
    pub fn set_weight(&mut self, r: RepRef, weight: usize)
        requires
            old(self).wf(),
            old(self).has_rep(r),
        ensures
            final(self).wf(),
            final(self).cells() == old(self).cells(),
            final(self).ranks() == old(self).ranks(),
            final(self).rep_count() == old(self).rep_count(),
            final(self).weight(r) == weight,
            forall|q: RepRef| old(self).has_rep(q) && q != r ==> #[trigger] final(self).weight(q) == old(self).weight(q),
    {
        self.reps.set(r.index, Representative { weight });
        proof {
            assert forall|x: int| 0 <= x < self.chains@.len() implies #[trigger] link_ok(
                self.chains@,
                self.rank@,
                self.reps@.len(),
                x,
            ) by {
                assert(link_ok(old(self).chains@, old(self).rank@, old(self).reps@.len(), x));
            }
        }
    }

    /// The content of a cell.
    pub fn get(&self, c: ChainRef) -> (chain: EquivClassChain)
        requires
            self.has_chain(c),
        ensures
            chain == self.cells()[c.index as int],
    {
        self.chains[c.index]
    }

    /// Links cell `s` to cell `l` of another class.  The cells whose chain passed
    /// through `s` now end at the root of `l`; all other cells keep their root.
    pub fn link(&mut self, s: ChainRef, l: ChainRef)
        requires
            old(self).wf(),
            old(self).has_chain(s),
            old(self).has_chain(l),
            old(self).root(l) != old(self).root(s),
        ensures
            final(self).wf(),
            final(self).cells() == old(self).cells().update(s.index as int, EquivClassChain::Next(l)),
            final(self).rep_count() == old(self).rep_count(),
            forall|r: RepRef| #[trigger] final(self).weight(r) == old(self).weight(r),
            forall|x: ChainRef|
                old(self).has_chain(x) ==> #[trigger] final(self).root(x) == (if reaches(
                    old(self).cells(),
                    old(self).ranks(),
                    x.index as int,
                    s.index as int,
                ) {
                    old(self).root(l)
                } else {
                    old(self).root(x)
                }),
    {
        let ghost chains = self.chains@;
        let ghost rank = self.rank@;
        let ghost nreps = self.reps@.len();
        proof {
            lemma_link_wf(chains, rank, nreps, s.index as int, l);
        }
        self.chains.set(s.index, EquivClassChain::Next(l));
        proof {
            self.rank@ = linked_rank(chains, rank, s.index as int, l.index as int);
            assert forall|x: ChainRef| old(self).has_chain(x) implies #[trigger] self.root(x) == (if reaches(
                chains,
                rank,
                x.index as int,
                s.index as int,
            ) {
                old(self).root(l)
            } else {
                old(self).root(x)
            }) by {
                lemma_link_roots(chains, rank, nreps, s.index as int, l, x.index as int);
            }
        }
    }

    /// Redirects cell `cur` to cell `t`, a later cell of its own chain.  Every
    /// cell keeps its root.
    fn redirect(&mut self, cur: ChainRef, t: ChainRef)
        requires
            old(self).wf(),
            old(self).has_chain(cur),
            old(self).has_chain(t),
            reaches(old(self).cells(), old(self).ranks(), cur.index as int, t.index as int),
            cur != t,
        ensures
            final(self).wf(),
            final(self).cells() == old(self).cells().update(cur.index as int, EquivClassChain::Next(t)),
            final(self).ranks() == old(self).ranks(),
            final(self).rep_count() == old(self).rep_count(),
            forall|r: RepRef| #[trigger] final(self).weight(r) == old(self).weight(r),
            forall|x: ChainRef|
                old(self).has_chain(x) ==> #[trigger] final(self).root(x) == old(self).root(x),
    {
        let ghost chains = self.chains@;
        let ghost rank = self.rank@;
        let ghost nreps = self.reps@.len();
        proof {
            lemma_reaches_same_root(chains, rank, nreps, cur.index as int, t.index as int);
            lemma_rank_below(chains, rank, nreps, cur.index as int, t.index as int);
        }
        self.chains.set(cur.index, EquivClassChain::Next(t));
        proof {
            let new_chains = self.chains@;
            assert forall|x: int| 0 <= x < new_chains.len() implies #[trigger] link_ok(
                new_chains,
                rank,
                nreps,
                x,
            ) by {
                assert(link_ok(chains, rank, nreps, x));
            }
            assert forall|x: ChainRef| old(self).has_chain(x) implies #[trigger] self.root(x) == old(
                self,
            ).root(x) by {
                lemma_redirect_keeps_roots(chains, rank, nreps, cur.index as int, t, x.index as int);
            }
        }
    }
}

/// A cell strictly after `c` on its chain has a smaller rank.
pub proof fn lemma_rank_below(chains: Seq<EquivClassChain>, rank: Seq<nat>, nreps: nat, c: int, t: int)
    requires
        chains_wf(chains, rank, nreps),
        0 <= c < chains.len(),
        reaches(chains, rank, c, t),
        c != t,
    ensures
        0 <= t < chains.len(),
        rank[t] < rank[c],
    decreases rank[c],
{
    lemma_reaches_unstep(chains, rank, nreps, c, t);
    assert(link_ok(chains, rank, nreps, c));
    let d = chains[c]->Next_0.index as int;
    if d != t {
        lemma_rank_below(chains, rank, nreps, d, t);
    }
}

impl Representative {
    /// Adds a new representative of weight one.
    pub fn default(arena: &mut ClassArena) -> (r: RepRef)
        requires
            old(arena).wf(),
        ensures
            final(arena).wf(),
            r.index == old(arena).rep_count(),
            final(arena).rep_count() == old(arena).rep_count() + 1,
            final(arena).cells() == old(arena).cells(),
            final(arena).ranks() == old(arena).ranks(),
            final(arena).weight(r) == 1,
            forall|q: RepRef| old(arena).has_rep(q) ==> #[trigger] final(arena).weight(q) == old(arena).weight(q),
    {
        arena.alloc_rep(1)
    }
}

impl EquivClassChain {
    /// Adds a cell that ends its chain at `rep`.
    pub fn new(arena: &mut ClassArena, rep: RepRef) -> (c: ChainRef)
        requires
            old(arena).wf(),
            old(arena).has_rep(rep),
        ensures
            final(arena).wf(),
            c.index == old(arena).cells().len(),
            final(arena).cells() == old(arena).cells().push(EquivClassChain::End(rep)),
            final(arena).rep_count() == old(arena).rep_count(),
            forall|r: RepRef| #[trigger] final(arena).weight(r) == old(arena).weight(r),
            forall|x: ChainRef|
                old(arena).has_chain(x) ==> #[trigger] final(arena).root(x) == old(arena).root(x),
            final(arena).root(c) == rep,
    {
        arena.alloc_chain(EquivClassChain::End(rep))
    }

    /// Adds a new representative of weight one and a cell that ends at it.
    pub fn default(arena: &mut ClassArena) -> (c: ChainRef)
        requires
            old(arena).wf(),
        ensures
            final(arena).wf(),
            c.index == old(arena).cells().len(),
            final(arena).cells() == old(arena).cells().push(EquivClassChain::End(final(arena).root(c))),
            final(arena).rep_count() == old(arena).rep_count() + 1,
            final(arena).root(c).index == old(arena).rep_count(),
            final(arena).weight(final(arena).root(c)) == 1,
            forall|q: RepRef| old(arena).has_rep(q) ==> #[trigger] final(arena).weight(q) == old(arena).weight(q),
            forall|x: ChainRef|
                old(arena).has_chain(x) ==> #[trigger] final(arena).root(x) == old(arena).root(x),
    {
        let ghost before = *arena;
        let rep = Representative::default(arena);
        let ghost mid = *arena;
        let c = EquivClassChain::new(arena, rep);
        assert forall|x: ChainRef| before.has_chain(x) implies #[trigger] arena.root(x) == before.root(x) by {
            assert(mid.has_chain(x));
            assert(mid.root(x) == before.root(x));
        }
        c
    }

    /// A copy of the content of cell `it`.
    pub fn clone_inner(arena: &ClassArena, it: ChainRef) -> (chain: Self)
        requires
            arena.has_chain(it),
        ensures
            chain == arena.cells()[it.index as int],
    {
        arena.get(it)
    }

    /// The representative of the class of cell `it`.  On the way, each visited
    /// cell is redirected to the cell two links further on, which shortens later
    /// searches and keeps every root.
    pub fn rep_of(arena: &mut ClassArena, it: ChainRef) -> (rep: RepRef)
        requires
            old(arena).wf(),
            old(arena).has_chain(it),
        ensures
            final(arena).wf(),
            rep == old(arena).root(it),
            old(arena).has_rep(rep),
            final(arena).cells().len() == old(arena).cells().len(),
            final(arena).ranks() == old(arena).ranks(),
            final(arena).rep_count() == old(arena).rep_count(),
            forall|r: RepRef| #[trigger] final(arena).weight(r) == old(arena).weight(r),
            forall|x: ChainRef|
                old(arena).has_chain(x) ==> #[trigger] final(arena).root(x) == old(arena).root(x),
            forall|c: int|
                0 <= c < old(arena).cells().len() && #[trigger] final(arena).cells()[c] != old(arena).cells()[c]
                    ==> {
                    &&& final(arena).cells()[c] is Next
                    &&& reaches(old(arena).cells(), old(arena).ranks(), c, final(arena).cells()[c]->Next_0.index as int)
                },
            final(arena).cells() == split_path(old(arena).cells(), old(arena).ranks(), it.index as int),
    {
        proof {
            lemma_root_fuel(arena.cells(), arena.ranks(), arena.rep_count(), it.index as int, arena.ranks()[it.index as int]);
        }
        let it_inner = Self::clone_inner(arena, it);
        match it_inner {
            EquivClassChain::End(rep) => {
                proof {
                    assert(arena.cells() =~= split_path(arena.cells(), arena.ranks(), it.index as int));
                }
                rep
            },
            EquivClassChain::Next(first) => {
                proof {
                    assert(link_ok(arena.cells(), arena.ranks(), arena.rep_count(), it.index as int));
                    lemma_root_next(arena.cells(), arena.ranks(), arena.rep_count(), it.index as int);
                }
                let mut cur = it;
                let mut next = first;
                loop
                    invariant
                        arena.wf(),
                        arena.has_chain(cur),
                        arena.has_chain(next),
                        arena.cells()[cur.index as int] == EquivClassChain::Next(next),
                        arena.cells()[cur.index as int] == old(arena).cells()[cur.index as int],
                        old(arena).wf(),
                        arena.root(next) == old(arena).root(it),
                        arena.cells().len() == old(arena).cells().len(),
                        arena.ranks() == old(arena).ranks(),
                        forall|c: int|
                            0 <= c < old(arena).cells().len() && #[trigger] arena.cells()[c] != old(arena).cells()[c]
                                ==> {
                                &&& arena.cells()[c] is Next
                                &&& reaches(old(arena).cells(), old(arena).ranks(), c, arena.cells()[c]->Next_0.index as int)
                                &&& arena.ranks()[c] > arena.ranks()[cur.index as int]
                            },
                        arena.rep_count() == old(arena).rep_count(),
                        forall|r: RepRef| #[trigger] arena.weight(r) == old(arena).weight(r),
                        forall|x: ChainRef|
                            old(arena).has_chain(x) ==> #[trigger] arena.root(x) == old(arena).root(x),
                        old(arena).has_chain(it),
                        reaches(old(arena).cells(), old(arena).ranks(), it.index as int, cur.index as int),
                        forall|c: int|
                            #![trigger arena.cells()[c]]
                            0 <= c < old(arena).cells().len() ==> {
                                let before = reaches(old(arena).cells(), old(arena).ranks(), it.index as int, c)
                                    && !reaches(old(arena).cells(), old(arena).ranks(), cur.index as int, c);
                                &&& before ==> two_ahead(old(arena).cells(), c) is Some
                                &&& arena.cells()[c] == if before {
                                    EquivClassChain::Next(two_ahead(old(arena).cells(), c)->0)
                                } else {
                                    old(arena).cells()[c]
                                }
                            },
                    decreases arena.ranks()[next.index as int],
                {
                    let next_inner = Self::clone_inner(arena, next);
                    match next_inner {
                        EquivClassChain::End(rep) => {
                            proof {
                                lemma_root_fuel(arena.cells(), arena.ranks(), arena.rep_count(), next.index as int, arena.ranks()[next.index as int]);
                                let och = old(arena).cells();
                                let rk = old(arena).ranks();
                                let n = arena.rep_count();
                                let oc = cur.index as int;
                                let on = next.index as int;
                                assert(reaches_fuel(och, on, on, rk[on]));
                                lemma_reaches_step(och, rk, n, oc, on);
                                assert(arena.cells()[on] == och[on]);
                                assert forall|c: int| 0 <= c < och.len() implies #[trigger] arena.cells()[c] == split_path(
                                    och,
                                    rk,
                                    it.index as int,
                                )[c] by {
                                    if reaches(och, rk, oc, c) && c != oc {
                                        lemma_reaches_unstep(och, rk, n, oc, c);
                                    }
                                }
                                assert(arena.cells() =~= split_path(och, rk, it.index as int));
                            }
                            return rep;
                        },
                        EquivClassChain::Next(next_next) => {
                            proof {
                                let ch = arena.cells();
                                let rk = arena.ranks();
                                let n = arena.rep_count();
                                assert(link_ok(ch, rk, n, cur.index as int));
                                assert(link_ok(ch, rk, n, next.index as int));
                                lemma_root_next(ch, rk, n, next.index as int);
                                assert(reaches_fuel(ch, next_next.index as int, next_next.index as int, rk[next_next.index as int]));
                                lemma_reaches_step(ch, rk, n, next.index as int, next_next.index as int);
                                lemma_reaches_step(ch, rk, n, cur.index as int, next_next.index as int);
                                let och = old(arena).cells();
                                assert(och[next.index as int] == ch[next.index as int]);
                                assert(reaches_fuel(och, next_next.index as int, next_next.index as int, rk[next_next.index as int]));
                                lemma_reaches_step(och, rk, n, next.index as int, next_next.index as int);
                                lemma_reaches_step(och, rk, n, cur.index as int, next_next.index as int);
                            }
                            let ghost pre = *arena;
                            arena.redirect(cur, next_next);
                            proof {
                                let och = old(arena).cells();
                                let rk = old(arena).ranks();
                                let n = arena.rep_count();
                                let oc = cur.index as int;
                                let on = next.index as int;
                                assert(reaches_fuel(och, on, on, rk[on]));
                                lemma_reaches_step(och, rk, n, oc, on);
                                lemma_reaches_trans(och, rk, n, it.index as int, oc, on);
                                lemma_rank_below(och, rk, n, oc, on);
                                assert(pre.cells()[on] == och[on]);
                                assert forall|c: int| 0 <= c < och.len() implies {
                                    let before = reaches(och, rk, it.index as int, c) && !reaches(och, rk, on, c);
                                    &&& before ==> two_ahead(och, c) is Some
                                    &&& #[trigger] arena.cells()[c] == if before {
                                        EquivClassChain::Next(two_ahead(och, c)->0)
                                    } else {
                                        och[c]
                                    }
                                } by {
                                    assert(pre.cells()[c] == arena.cells()[c] || c == oc);
                                    if c == oc {
                                        if reaches(och, rk, on, c) {
                                            lemma_rank_at_most(och, rk, n, on, c);
                                        }
                                    } else {
                                        if reaches(och, rk, oc, c) {
                                            lemma_reaches_unstep(och, rk, n, oc, c);
                                        }
                                        if reaches(och, rk, on, c) {
                                            lemma_reaches_step(och, rk, n, oc, c);
                                        }
                                    }
                                }
                                assert(pre.has_chain(next_next));
                                assert(arena.root(next_next) == pre.root(next_next));
                                assert forall|x: ChainRef| old(arena).has_chain(x) implies #[trigger] arena.root(x) == old(arena).root(x) by {
                                    assert(pre.has_chain(x));
                                    assert(arena.root(x) == pre.root(x));
                                    assert(pre.root(x) == old(arena).root(x));
                                }
                            }
                            cur = next;
                            next = next_next;
                        },
                    }
                }
            },
        }
    }
}

} // verus!
