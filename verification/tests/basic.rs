use graph_equiv::chain::{ClassArena, EquivClassChain, Representative};
use graph_equiv::classes::EquivClasses;
use graph_equiv::equiv::{Control, Equiv, EquivResult};
use graph_equiv::node::{default_descend_amount, Node};

enum Datum {
    Leaf,
    Pair(Box<Datum>, Box<Datum>),
}

fn leaf() -> Datum {
    Datum::Leaf
}

fn pair(a: Datum, b: Datum) -> Datum {
    Datum::Pair(Box::new(a), Box::new(b))
}

fn end_pair() -> Datum {
    pair(leaf(), leaf())
}

impl<'a> Node for &'a Datum {
    /// The address of the node, so that only the same node is identical.
    type Id = String;

    fn id(&self) -> Self::Id {
        format!("{:p}", *self)
    }

    fn amount_edges(&self) -> usize {
        match self {
            Datum::Leaf => 0,
            Datum::Pair(_, _) => 2,
        }
    }

    fn get_edge(&self, idx: usize) -> Self {
        match (idx, self) {
            (0, Datum::Pair(a, _)) => a,
            (1, Datum::Pair(_, b)) => b,
            _ => panic!("invalid"),
        }
    }

    fn equiv_modulo_edges(&self, _other: &Self) -> bool {
        true
    }

    fn equiv_modulo_descendents_then_amount_edges(&self, other: &Self) -> Option<usize> {
        default_descend_amount(self, other)
    }
}

#[derive(PartialEq, Eq, Debug)]
enum Outcome {
    Unequiv(i32),
    Abort(i32),
    Equiv(i32),
}

fn eqv(a: &Datum, b: &Datum, limit: i32) -> Outcome {
    let mut e: Equiv<String> = Equiv { limit, state: Control::Precheck };
    match e.equiv(&a, &b) {
        EquivResult::Abort => Outcome::Abort(e.limit),
        EquivResult::Unequiv => Outcome::Unequiv(e.limit),
        EquivResult::Equiv => Outcome::Equiv(e.limit),
    }
}

#[test]
fn limiting() {
    assert_eq!(eqv(&leaf(), &leaf(), 42), Outcome::Equiv(42));
    assert_eq!(eqv(&leaf(), &leaf(), -1), Outcome::Equiv(-1));
    assert_eq!(eqv(&leaf(), &end_pair(), 42), Outcome::Unequiv(42));
    assert_eq!(eqv(&end_pair(), &leaf(), 42), Outcome::Unequiv(42));
    assert_eq!(eqv(&end_pair(), &end_pair(), 7), Outcome::Equiv(5));
    assert_eq!(eqv(&pair(leaf(), end_pair()), &pair(leaf(), end_pair()), 7), Outcome::Equiv(3));
    assert_eq!(eqv(&end_pair(), &end_pair(), 0), Outcome::Abort(0));
    assert_eq!(eqv(&pair(leaf(), end_pair()), &pair(leaf(), end_pair()), 1), Outcome::Abort(-1));
    assert_eq!(eqv(&pair(leaf(), leaf()), &pair(leaf(), end_pair()), 42), Outcome::Unequiv(40));
    assert_eq!(
        {
            let x = pair(end_pair(), leaf());
            eqv(&x, &x, 0)
        },
        Outcome::Equiv(0)
    );
}

#[test]
fn representative() {
    let mut arena = ClassArena::new();
    {
        let r = arena.alloc_rep(0);
        assert!(r == r);
    };
    {
        let r1 = arena.alloc_rep(1);
        let r2 = r1;
        assert_eq!(r1, r2);
    };
    {
        let r1 = arena.alloc_rep(2);
        let r2 = r1.clone();
        assert_eq!(r1, r2);
    };
    {
        let r1 = arena.alloc_rep(3);
        let r2 = arena.alloc_rep(3);
        assert_ne!(r1, r2);
    };
}

#[test]
fn rep_of() {
    let mut arena = ClassArena::new();
    let rep1 = Representative::default(&mut arena);
    let ecc1 = EquivClassChain::new(&mut arena, rep1);
    let ecc2 = EquivClassChain::new(&mut arena, rep1);
    let ecc3 = arena.alloc_chain(EquivClassChain::Next(ecc1));
    let ecc4 = arena.alloc_chain(EquivClassChain::Next(ecc2));
    let ecc5 = arena.alloc_chain(EquivClassChain::Next(ecc4));
    let ecc6 = arena.alloc_chain(EquivClassChain::Next(ecc5));

    assert_eq!(EquivClassChain::rep_of(&mut arena, ecc1), rep1);
    assert_eq!(EquivClassChain::rep_of(&mut arena, ecc2), rep1);
    assert_eq!(EquivClassChain::rep_of(&mut arena, ecc3), rep1);
    assert_eq!(EquivClassChain::rep_of(&mut arena, ecc4), rep1);
    assert_eq!(EquivClassChain::rep_of(&mut arena, ecc5), rep1);
    assert_eq!(EquivClassChain::rep_of(&mut arena, ecc6), rep1);

    let rep2 = Representative::default(&mut arena);
    let ecc7 = EquivClassChain::new(&mut arena, rep2);
    assert_ne!(EquivClassChain::rep_of(&mut arena, ecc7), rep1);
}

#[test]
fn same_class() {
    let mut ec = EquivClasses::new();
    let keys = ['a', 'b', 'c', 'd', 'e', 'f'];

    assert!(!ec.same_class(keys[0], keys[1]));
    assert!(ec.same_class(keys[0], keys[1]));

    assert!(!ec.same_class(keys[0], keys[2]));
    assert!(ec.same_class(keys[0], keys[2]));
    assert!(ec.same_class(keys[1], keys[2]));

    assert!(!ec.same_class(keys[3], keys[2]));
    assert!(ec.same_class(keys[3], keys[2]));
    assert!(ec.same_class(keys[3], keys[1]));
    assert!(ec.same_class(keys[3], keys[0]));

    assert!(!ec.same_class(keys[4], keys[5]));
    assert!(ec.same_class(keys[4], keys[5]));
    assert!(!ec.same_class(keys[1], keys[4]));

    for a in &keys {
        for b in &keys {
            assert!(ec.same_class(*a, *b));
        }
    }
}

fn next_of(arena: &ClassArena, c: graph_equiv::chain::ChainRef) -> Option<graph_equiv::chain::ChainRef> {
    match arena.get(c) {
        EquivClassChain::Next(d) => Some(d),
        EquivClassChain::End(_) => None,
    }
}

#[test]
fn rep_of_splits_the_path() {
    let mut arena = ClassArena::new();
    let rep = Representative::default(&mut arena);
    let c4 = EquivClassChain::new(&mut arena, rep);
    let c3 = arena.alloc_chain(EquivClassChain::Next(c4));
    let c2 = arena.alloc_chain(EquivClassChain::Next(c3));
    let c1 = arena.alloc_chain(EquivClassChain::Next(c2));
    let c0 = arena.alloc_chain(EquivClassChain::Next(c1));
    let other = arena.alloc_chain(EquivClassChain::Next(c2));
    assert_eq!(EquivClassChain::rep_of(&mut arena, c0), rep);
    assert_eq!(next_of(&arena, c0), Some(c2));
    assert_eq!(next_of(&arena, c1), Some(c3));
    assert_eq!(next_of(&arena, c2), Some(c4));
    assert_eq!(next_of(&arena, c3), Some(c4));
    assert_eq!(next_of(&arena, c4), None);
    assert_eq!(next_of(&arena, other), Some(c2));
    assert_eq!(EquivClassChain::rep_of(&mut arena, other), rep);
    assert_eq!(next_of(&arena, other), Some(c4));
}

#[test]
fn same_class_moves_the_keys_of_the_linked_cell() {
    let mut ec = EquivClasses::new();
    assert!(!ec.same_class(1u16, 2u16));
    assert!(!ec.same_class(3u16, 1u16));
    assert!(!ec.same_class(4u16, 5u16));
    assert!(ec.same_class(2u16, 3u16));
    // Equal weights: 4's class stays, and 3's own cell is linked into it, taking
    // 5 (which shares 4's cell) along but leaving 1 and 2 behind.
    assert!(!ec.same_class(4u16, 3u16));
    assert!(ec.same_class(5u16, 3u16));
    assert!(ec.same_class(1u16, 2u16));
    assert!(!ec.same_class(1u16, 3u16));
    for a in 1u16..=5 {
        for b in 1u16..=5 {
            assert!(ec.same_class(a, b));
        }
    }
}

#[test]
fn same_class_new_key_gets_a_cell_of_its_own() {
    let mut ec = EquivClasses::new();
    assert!(!ec.same_class('a', 'b'));
    assert!(!ec.same_class('a', 'c'));
    assert!(!ec.same_class('x', 'y'));
    // Equal weights: the class of 'x' stays and the cell shared by 'a' and 'b'
    // is linked into it; 'c' has a cell of its own and stays behind.
    assert!(!ec.same_class('x', 'a'));
    assert!(ec.same_class('b', 'y'));
    assert!(!ec.same_class('c', 'x'));
    assert!(ec.same_class('c', 'a'));
}
