use graph_equiv::classes::EquivClasses;
use graph_equiv::equiv::{precheck_interleave_equiv, precheck_interleave_equiv_flagged, Control, Equiv, EquivResult};
use graph_equiv::node::{default_descend_amount, Node};

/// Nodes with a label and edges to other nodes, all in one vector, so that a node
/// is identified by its index.
struct Graph {
    labels: Vec<u8>,
    edges: Vec<Vec<usize>>,
}

#[derive(Clone, Copy)]
struct At<'a> {
    graph: &'a Graph,
    index: usize,
}

impl<'a> Node for At<'a> {
    type Id = usize;

    fn id(&self) -> usize {
        self.index
    }

    fn amount_edges(&self) -> usize {
        self.graph.edges[self.index].len()
    }

    fn get_edge(&self, index: usize) -> Self {
        At { graph: self.graph, index: self.graph.edges[self.index][index] }
    }

    fn equiv_modulo_edges(&self, other: &Self) -> bool {
        self.graph.labels[self.index] == other.graph.labels[other.index]
    }

    fn equiv_modulo_descendents_then_amount_edges(&self, other: &Self) -> Option<usize> {
        default_descend_amount(self, other)
    }
}

fn at(graph: &Graph, index: usize) -> At<'_> {
    At { graph, index }
}

/// Node 0 loops to itself; nodes 1 and 2 form a cycle; all labels are equal
/// except that of node 3, which forms a cycle with node 4.
fn cycles() -> Graph {
    Graph {
        labels: vec![1, 1, 1, 2, 1],
        edges: vec![vec![0], vec![2], vec![1], vec![4], vec![3]],
    }
}

/// Two lists of `n` nodes with label 7, the second starting at index `n`, whose
/// last nodes have labels `end_a` and `end_b`.
fn two_lists(n: usize, end_a: u8, end_b: u8) -> Graph {
    let mut labels = Vec::new();
    let mut edges = Vec::new();
    for start in [0, n] {
        for i in 0..n {
            labels.push(7);
            if i + 1 < n {
                edges.push(vec![start + i + 1]);
            } else {
                edges.push(vec![]);
            }
        }
    }
    labels[n - 1] = end_a;
    labels[2 * n - 1] = end_b;
    Graph { labels, edges }
}

#[test]
fn same_node_is_equivalent() {
    let g = cycles();
    assert!(precheck_interleave_equiv(&at(&g, 1), &at(&g, 1)));
}

#[test]
fn cycles_of_different_lengths_are_equivalent() {
    let g = cycles();
    assert!(precheck_interleave_equiv(&at(&g, 0), &at(&g, 1)));
    assert!(precheck_interleave_equiv(&at(&g, 1), &at(&g, 0)));
    assert!(precheck_interleave_equiv(&at(&g, 2), &at(&g, 0)));
}

#[test]
fn cycles_with_a_different_label_are_not() {
    let g = cycles();
    assert!(!precheck_interleave_equiv(&at(&g, 0), &at(&g, 3)));
    assert!(!precheck_interleave_equiv(&at(&g, 3), &at(&g, 1)));
}

#[test]
fn long_equal_lists_are_equivalent() {
    let g = two_lists(3000, 9, 9);
    assert!(precheck_interleave_equiv(&at(&g, 0), &at(&g, 3000)));
}

#[test]
fn long_lists_differing_at_the_end_are_not() {
    let g = two_lists(3000, 9, 8);
    assert!(!precheck_interleave_equiv(&at(&g, 0), &at(&g, 3000)));
}

#[test]
fn short_lists_are_decided_by_the_precheck() {
    let g = two_lists(10, 9, 9);
    let mut e: Equiv<usize> = Equiv { limit: 400, state: Control::Precheck };
    assert_eq!(e.equiv(&at(&g, 0), &at(&g, 10)), EquivResult::Equiv);
    assert_eq!(e.limit, 391);
    assert!(precheck_interleave_equiv(&at(&g, 0), &at(&g, 10)));
}

#[test]
fn precheck_aborts_on_cycles() {
    let g = cycles();
    let mut e: Equiv<usize> = Equiv { limit: 400, state: Control::Precheck };
    assert_eq!(e.equiv(&at(&g, 0), &at(&g, 1)), EquivResult::Abort);
    assert_eq!(e.limit, 0);
}

#[test]
fn interleave_never_aborts() {
    let g = cycles();
    let mut e: Equiv<usize> = Equiv { limit: -1, state: Control::Interleave(EquivClasses::new()) };
    assert_eq!(e.equiv(&at(&g, 0), &at(&g, 1)), EquivResult::Equiv);
    let mut e: Equiv<usize> = Equiv { limit: -1, state: Control::Interleave(EquivClasses::new()) };
    assert_eq!(e.equiv(&at(&g, 0), &at(&g, 3)), EquivResult::Unequiv);
}

#[test]
fn depth_bound_aborts() {
    let g = two_lists(3, 9, 8);
    let mut e: Equiv<usize> = Equiv { limit: 400, state: Control::Precheck };
    assert_eq!(e.equiv_within(&at(&g, 0), &at(&g, 3), 1), EquivResult::Abort);
    let mut e: Equiv<usize> = Equiv { limit: -1, state: Control::Interleave(EquivClasses::new()) };
    assert_eq!(e.equiv_within(&at(&g, 0), &at(&g, 3), 1), EquivResult::Abort);
    let mut e: Equiv<usize> = Equiv { limit: 400, state: Control::Precheck };
    assert_eq!(e.equiv_within(&at(&g, 0), &at(&g, 3), 3), EquivResult::Unequiv);
}

#[test]
fn precheck_depth_bound_at_least_limit_changes_nothing() {
    let g = two_lists(5, 9, 8);
    let mut e1: Equiv<usize> = Equiv { limit: 6, state: Control::Precheck };
    let mut e2: Equiv<usize> = Equiv { limit: 6, state: Control::Precheck };
    let r1 = e1.equiv_within(&at(&g, 0), &at(&g, 5), 6);
    let r2 = e2.equiv(&at(&g, 0), &at(&g, 5));
    assert_eq!(r1, r2);
    assert_eq!(r1, EquivResult::Unequiv);
    assert_eq!(e1.limit, e2.limit);
    assert_eq!(e1.limit, 2);
}

#[test]
fn default_descend_amount_compares_amounts_then_values() {
    let g = Graph { labels: vec![1, 1, 2, 1], edges: vec![vec![1, 1], vec![], vec![3, 3], vec![0]] };
    assert_eq!(default_descend_amount(&at(&g, 0), &at(&g, 0)), Some(2));
    assert_eq!(default_descend_amount(&at(&g, 0), &at(&g, 2)), None);
    assert_eq!(default_descend_amount(&at(&g, 0), &at(&g, 3)), None);
    assert_eq!(default_descend_amount(&at(&g, 1), &at(&g, 3)), None);
}

#[test]
fn same_class_answer_ignores_key_order() {
    let mut ec1 = EquivClasses::new();
    let mut ec2 = EquivClasses::new();
    assert!(!ec1.same_class(1u32, 2u32));
    assert!(!ec2.same_class(1u32, 2u32));
    assert!(!ec1.same_class(3u32, 4u32));
    assert!(!ec2.same_class(3u32, 4u32));
    assert_eq!(ec1.same_class(2, 3), ec2.same_class(3, 2));
    assert_eq!(ec1.same_class(1, 4), ec2.same_class(4, 1));
    assert!(ec1.same_class(1, 4));
}

#[test]
fn same_class_twice_is_true() {
    let mut ec = EquivClasses::new();
    for (a, b) in [(5u8, 6u8), (7, 7), (6, 8), (9, 5), (8, 9)] {
        ec.same_class(a, b);
        assert!(ec.same_class(a, b));
        assert!(ec.same_class(b, a));
    }
}

#[test]
fn same_class_new_key_is_false() {
    let mut ec = EquivClasses::new();
    assert!(!ec.same_class(1i64, 1i64));
    assert!(ec.same_class(1i64, 1i64));
    assert!(!ec.same_class(1i64, 2i64));
    assert!(!ec.same_class(3i64, 2i64));
    assert!(ec.same_class(3i64, 1i64));
}

/// Like `At`, but labels that differ by one count as equivalent, which is not a
/// transitive relation.
#[derive(Clone, Copy)]
struct Near<'a> {
    graph: &'a Graph,
    index: usize,
}

impl<'a> Node for Near<'a> {
    type Id = usize;

    fn id(&self) -> usize {
        self.index
    }

    fn amount_edges(&self) -> usize {
        self.graph.edges[self.index].len()
    }

    fn get_edge(&self, index: usize) -> Self {
        Near { graph: self.graph, index: self.graph.edges[self.index][index] }
    }

    fn equiv_modulo_edges(&self, other: &Self) -> bool {
        let (x, y) = (self.graph.labels[self.index], other.graph.labels[other.index]);
        x <= y + 1 && y <= x + 1
    }

    fn equiv_modulo_descendents_then_amount_edges(&self, other: &Self) -> Option<usize> {
        default_descend_amount(self, other)
    }
}

#[test]
fn non_transitive_node_relation_can_answer_true() {
    // 0: A = [M1 x 450, x, y, x]; 1: B = [M2 x 450, y, z, z]
    // 2: M1 -> 4, 3: M2 -> 4, 4: leaf
    // 5: x -> 8, 6: y -> 9, 7: z -> 10; 8, 9, 10: leaves labelled 0, 1, 2
    let mut edges_a = vec![2; 450];
    edges_a.extend([5, 6, 5]);
    let mut edges_b = vec![3; 450];
    edges_b.extend([6, 7, 7]);
    let g = Graph {
        labels: vec![0, 0, 0, 0, 0, 0, 0, 0, 0, 1, 2],
        edges: vec![edges_a, edges_b, vec![4], vec![4], vec![], vec![8], vec![9], vec![10], vec![], vec![], vec![]],
    };
    let near = |index: usize| Near { graph: &g, index };
    // x and z differ below: their descendents are labelled 0 and 2.
    assert!(!precheck_interleave_equiv(&near(5), &near(7)));
    // Reached through y, the pair (x, z) is taken as equivalent.
    assert!(precheck_interleave_equiv(&near(0), &near(1)));
}

#[test]
fn answers_agree_whatever_the_start_limit() {
    for (end_b, expected) in [(9u8, EquivResult::Equiv), (8u8, EquivResult::Unequiv)] {
        let g = two_lists(900, 9, end_b);
        for limit in [-40, -1, 0, 1, 400, 800, 5000] {
            let mut e: Equiv<usize> = Equiv { limit, state: Control::Interleave(EquivClasses::new()) };
            assert_eq!(e.equiv(&at(&g, 0), &at(&g, 900)), expected);
        }
        assert_eq!(precheck_interleave_equiv(&at(&g, 0), &at(&g, 900)), expected == EquivResult::Equiv);
    }
}

#[test]
fn answers_are_symmetric_and_transitive() {
    // 0, 1, 2: [x, y] with equal leaves; 3: [x, z] with a different leaf.
    let g = Graph {
        labels: vec![5, 5, 5, 5, 1, 1, 1, 2],
        edges: vec![vec![4, 5], vec![5, 6], vec![6, 4], vec![4, 7], vec![], vec![], vec![], vec![]],
    };
    for a in 0..4 {
        for b in 0..4 {
            let r = precheck_interleave_equiv(&at(&g, a), &at(&g, b));
            assert_eq!(r, precheck_interleave_equiv(&at(&g, b), &at(&g, a)));
            assert_eq!(r, a == b || (a < 3 && b < 3));
        }
    }
}

#[test]
fn slow_phase_takes_one_class_as_equivalent_without_descending() {
    // Nodes 0 and 3 head lists that differ at their ends.
    let g = two_lists(3, 9, 8);
    let mut classes = EquivClasses::new();
    assert!(!classes.same_class(0usize, 3usize));
    let mut e: Equiv<usize> = Equiv { limit: -1, state: Control::Interleave(classes) };
    assert_eq!(e.equiv(&at(&g, 0), &at(&g, 3)), EquivResult::Equiv);
    assert_eq!(e.limit, 0);
    let mut e: Equiv<usize> = Equiv { limit: -1, state: Control::Interleave(EquivClasses::new()) };
    assert_eq!(e.equiv(&at(&g, 0), &at(&g, 3)), EquivResult::Unequiv);
}

#[test]
fn flagged_answer_matches_the_plain_answer() {
    let g = cycles();
    for a in 0..5 {
        for b in 0..5 {
            let plain = precheck_interleave_equiv(&at(&g, a), &at(&g, b));
            assert_eq!(precheck_interleave_equiv_flagged(&at(&g, a), &at(&g, b)).0, plain);
            assert_eq!(plain, a == b || (a < 3 && b < 3));
        }
    }
}
