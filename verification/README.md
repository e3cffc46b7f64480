# graph_equiv

Deciding whether two nodes of possibly cyclic graphs are equivalent, without
changing the graphs, in the style of Adams and Dybvig's "Efficient nondestructive
equality checking for trees and graphs".  The library is written in Verus and
its contracts are proved.

## Layout

- `src/node.rs`: the `Node` trait that a graph type implements, its spec model
  (identity, edges, the descend amount), and the relations the results are
  stated in: `differ_within` / `distinguishable` (a finite unfolding of edges
  that tells two nodes apart) and `agree_within` (agreement up to pairs taken as
  equivalent).
- `src/sound.rs`: the laws among the nodes reachable from the compared ones
  (`node_laws`: identities name single nodes, the descend amount is bounded by
  the amounts of edges, symmetric and transitive) under which a `true` answer of
  the interleaving is sound, and the proof that it is.
- `src/precheck.rs`: `precheck_outcome`, the exact result of the bounded
  precheck phase, and its laws.
- `src/equiv.rs`: the comparison itself (`Equiv::equiv`), its two ways of
  deciding descents (`Control`), the random fast-phase limit (drawn with
  `fastrand`), and `precheck_interleave_equiv`.
- `src/classes.rs`: `EquivClasses`, the union-find over node identities used by
  the slow phases, with a ghost labelling that records the equivalence built so
  far, and its laws.
- `src/chain.rs`: the arena of chain cells and representatives that the
  union-find links, with path splitting in `rep_of`.
- `tests/`: scenarios, run against the compiled library.

## What is proved

- Every `Unequiv` result of a comparison comes with a finite unfolding of edges
  that tells the nodes apart.  `precheck_interleave_equiv_flagged` gives the
  answer of `precheck_interleave_equiv` together with a ghost flag that is set
  only where a descent was refused at the depth bound; a `false` answer without
  such an unfolding comes only with the flag set.  The plain `bool` answer
  states this only as a property of the graphs (a descent of more than
  `usize::MAX` levels), which every pair that cycles keep apart has.
- A `true` answer decided by the precheck means that no such unfolding exists;
  so does every `true` answer when the nodes reachable from the compared ones
  meet `node_laws`.
- Where the nodes meet `node_laws`, an answer whose flag is clear is exactly
  whether no unfolding tells the nodes apart; so such answers are symmetric and
  transitive, and depend neither on the start limit of the interleaving, nor on
  its random limits, nor on whether the precheck decided.  Where no comparison
  can descend more than `usize::MAX` levels (every acyclic graph of smaller
  depth) the flag is always clear.  That the flag stays clear on finite cyclic
  graphs is not proved.
- The precheck computes exactly `precheck_outcome`, whatever the depth bound as
  long as it is at least the limit.
- In a slow phase, a comparison of two nodes whose identities already share a
  representative answers `Equiv` without descending and restarts the phase;
  otherwise it puts the two identities in one class before it descends.
- `same_class` answers whether both keys already share a representative.  The
  relation that the calls have built (a ghost labelling of classes) grows by
  exactly the merge of the two keys' classes, and keys that share a
  representative are always related by it, so a `true` answer is never given
  for keys that no earlier call related.  The representatives themselves are
  stated exactly: a new key gets a cell of its own ending at the representative
  it joins; a call that answers `true` or adds a key moves no existing key; a
  merge moves exactly the keys whose chain, after the searches it makes, passes
  through the linked cell, so keys of the absorbed class may stay behind.
- `rep_of` splits the path it follows: each cell of the chain searched that has
  a cell two links further on is linked there, no other cell changes, and every
  cell keeps its root.

## Design notes

- Descendents have the node type itself, and edges are indexed by `usize`.
- `Node::equiv_modulo_descendents_then_amount_edges` has to be written by each
  implementation; `node::default_descend_amount` is the usual body.
- Identities are compared with `==` and hashed: the identity type must obey
  vstd's hash-table key model and compare by value (`obeys_key_model`,
  `obeys_concrete_eq`).  vstd grants both to the integer types and `bool`; a
  verified caller whose identity type is another one, such as `char` or a
  pointer, has to establish them itself (unverified callers, such as the
  tests, are not asked).
- Union-find cells and representatives live in an arena and are named by index;
  a representative's identity is its index.
- Every exec function must provably terminate, and the interleaving does not
  terminate for every possible sequence of random limits.  Descents therefore
  carry a depth bound, which starts at `usize::MAX`: no call stack can get that
  deep, so the bound never changes a result in practice.  A pair reached at the
  bound aborts the comparison, and `precheck_interleave_equiv` then answers
  `false`.
