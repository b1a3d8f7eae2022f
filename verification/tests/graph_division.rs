use cspuz::propagators::graph_division::GraphDivision;
use cspuz::propagators::{CustomPropagator, SolverManipulator};
use cspuz::sat::Lit;
use std::collections::VecDeque;

/// A fixed total assignment, as a solver would hold it after deciding every
/// variable; asserting a literal succeeds exactly when it is already true.
struct FixedAssignment {
    values: Vec<bool>,
}

impl FixedAssignment {
    fn holds(&self, lit: Lit) -> bool {
        let var = (lit.0 / 2) as usize;
        let negated = lit.0 % 2 == 1;
        self.values[var] != negated
    }
}

impl SolverManipulator for FixedAssignment {
    fn value(&self, lit: Lit) -> Option<bool> {
        Some(self.holds(lit))
    }

    fn add_watch(&mut self, _lit: Lit) {}

    fn enqueue(&mut self, lit: Lit) -> bool {
        self.holds(lit)
    }

    fn is_current_level(&self, _lit: Lit) -> bool {
        true
    }
}

fn lit_of(var: usize) -> Lit {
    Lit((var * 2) as i32)
}

/// Region sizes of a border assignment, and whether no border lies inside a region.
fn regions(
    num_vertices: usize,
    weights: &[i32],
    edges: &[(usize, usize)],
    is_border: &[bool],
) -> (Vec<usize>, Vec<i32>, bool) {
    let mut adj = vec![vec![]; num_vertices];
    for (i, &(u, v)) in edges.iter().enumerate() {
        adj[u].push((v, i));
        adj[v].push((u, i));
    }
    let mut group_id = vec![usize::MAX; num_vertices];
    let mut group_size = vec![];
    for i in 0..num_vertices {
        if group_id[i] != usize::MAX {
            continue;
        }
        let id = group_size.len();
        let mut size = 0;
        let mut queue = VecDeque::new();
        queue.push_back(i);
        group_id[i] = id;
        while let Some(p) = queue.pop_front() {
            size += weights[p];
            for &(q, e) in &adj[p] {
                if is_border[e] {
                    continue;
                }
                if group_id[q] == usize::MAX {
                    group_id[q] = id;
                    queue.push_back(q);
                }
            }
        }
        group_size.push(size);
    }
    let mut no_extra_border = true;
    for (i, &(u, v)) in edges.iter().enumerate() {
        if is_border[i] && group_id[u] == group_id[v] {
            no_extra_border = false;
        }
    }
    (group_id, group_size, no_extra_border)
}

/// For every border assignment, the constraint, given the borders and sizes
/// that match the regions where the domains allow it, finds no conflict
/// exactly when the division is valid; the numbers of valid divisions agree.
fn compare_counts(
    num_vertices: usize,
    domains: &[Option<Vec<i32>>],
    vertex_weights: Option<Vec<i32>>,
    edges: &[(usize, usize)],
    predetermined_edges: &[Option<bool>],
) {
    let num_edges = edges.len();
    let weights = vertex_weights.unwrap_or_else(|| vec![1; num_vertices]);

    let mut next_var = 0;
    let mut domains_vec = vec![];
    let mut dom_lits = vec![];
    for i in 0..num_vertices {
        match &domains[i] {
            Some(dom) => {
                domains_vec.push(dom.clone());
                let mut lits = vec![];
                for _ in 0..(dom.len() - 1) {
                    lits.push(lit_of(next_var));
                    next_var += 1;
                }
                dom_lits.push(lits);
            }
            None => {
                domains_vec.push(vec![]);
                dom_lits.push(vec![]);
            }
        }
    }
    let mut edge_lits = vec![];
    for _ in 0..num_edges {
        edge_lits.push(lit_of(next_var));
        next_var += 1;
    }

    let mut n_sat = 0;
    let mut n_naive = 0;
    for m in 0u32..(1 << num_edges) {
        let is_border = (0..num_edges).map(|i| (m >> i) & 1 == 1).collect::<Vec<_>>();
        if (0..num_edges).any(|i| matches!(predetermined_edges[i], Some(v) if v != is_border[i])) {
            continue;
        }
        let (group_id, group_size, no_extra_border) = regions(num_vertices, &weights, edges, &is_border);

        let mut values = vec![false; next_var];
        let mut valid = no_extra_border;
        for i in 0..num_vertices {
            if let Some(dom) = &domains[i] {
                let size = group_size[group_id[i]];
                let value = if dom.contains(&size) {
                    size
                } else {
                    valid = false;
                    dom[0]
                };
                for j in 0..dom_lits[i].len() {
                    let var = (dom_lits[i][j].0 / 2) as usize;
                    values[var] = value > dom[j];
                }
            }
        }
        for i in 0..num_edges {
            values[(edge_lits[i].0 / 2) as usize] = is_border[i];
        }

        let mut solver = FixedAssignment { values };
        let mut constraint = GraphDivision::new(&domains_vec, &dom_lits, &weights, edges, &edge_lits);
        let ok = constraint.initialize(&mut solver);
        assert_eq!(ok, valid, "border assignment {:?}", is_border);
        if ok {
            n_sat += 1;
        }
        if valid {
            n_naive += 1;
        }
    }
    assert_eq!(n_sat, n_naive);
}

fn grid_3x3_edges() -> Vec<(usize, usize)> {
    vec![
        (0, 1),
        (1, 2),
        (3, 4),
        (4, 5),
        (6, 7),
        (7, 8),
        (0, 3),
        (1, 4),
        (2, 5),
        (3, 6),
        (4, 7),
        (5, 8),
    ]
}

#[test]
fn test_graph_division_extra_disconnection() {
    compare_counts(4, &vec![None; 4], None, &[(0, 1), (1, 2), (2, 3), (0, 3)], &[None; 4]);
    compare_counts(
        6,
        &vec![None; 6],
        None,
        &[(0, 1), (1, 2), (3, 4), (4, 5), (0, 3), (1, 4), (2, 5)],
        &[None; 7],
    );
    compare_counts(9, &vec![None; 9], None, &grid_3x3_edges(), &[None; 12]);
}

#[test]
fn test_graph_division_extra_disconnection_predetermined() {
    compare_counts(
        6,
        &vec![None; 6],
        None,
        &[(0, 1), (1, 2), (3, 4), (4, 5), (0, 3), (1, 4), (2, 5)],
        &[None, Some(true), None, Some(false), None, Some(false), Some(false)],
    );
    compare_counts(
        9,
        &vec![None; 9],
        None,
        &grid_3x3_edges(),
        &[None, Some(true), None, None, None, None, Some(false), None, None, None, None, None],
    );
}

#[test]
fn test_graph_division_vertex_constraints() {
    compare_counts(
        6,
        &vec![Some(vec![2, 3]), None, None, None, None, None],
        None,
        &[(0, 1), (1, 2), (3, 4), (4, 5), (0, 3), (1, 4), (2, 5)],
        &[None; 7],
    );
    compare_counts(
        9,
        &vec![Some(vec![2, 3]), None, None, None, None, Some(vec![1, 3, 4]), None, None, None],
        None,
        &grid_3x3_edges(),
        &[None; 12],
    );
    compare_counts(
        9,
        &vec![Some(vec![4]), None, None, None, None, None, None, None, Some(vec![6])],
        None,
        &grid_3x3_edges(),
        &[None; 12],
    );
    compare_counts(
        9,
        &vec![
            Some(vec![1, 2]),
            Some(vec![3]),
            Some(vec![1, 2, 3, 4]),
            Some(vec![1, 2, 3]),
            Some(vec![1, 2, 3, 4]),
            Some(vec![1, 2, 3, 4]),
            Some(vec![1, 2, 3]),
            Some(vec![1, 2, 3, 4]),
            Some(vec![1, 2, 3, 4]),
        ],
        None,
        &grid_3x3_edges(),
        &[None; 12],
    );
}

#[test]
fn test_graph_division_vertex_constraints_weighted() {
    compare_counts(
        9,
        &vec![
            Some(vec![1, 2]),
            Some(vec![3]),
            Some(vec![1, 2, 3, 4]),
            Some(vec![1, 2, 3]),
            Some(vec![1, 2, 3, 4]),
            None,
            Some(vec![1, 2, 3]),
            Some(vec![1, 2, 3, 4]),
            Some(vec![1, 2, 3, 4]),
        ],
        Some(vec![1, 2, 1, 2, 2, 3, 1, 1, 0]),
        &grid_3x3_edges(),
        &[None; 12],
    );
}

/// A border inside a region is explained by the joining edges of a path
/// between its ends and the border itself.
#[test]
fn test_graph_division_conflict_reason() {
    // a triangle: edges 0-1 and 1-2 join, edge 0-2 is a border
    let edges = [(0, 1), (1, 2), (0, 2)];
    let edge_lits = [lit_of(0), lit_of(1), lit_of(2)];
    let domains = vec![vec![], vec![], vec![]];
    let dom_lits: Vec<Vec<Lit>> = vec![vec![], vec![], vec![]];
    let mut solver = FixedAssignment { values: vec![false, false, true] };
    let mut constraint = GraphDivision::new(&domains, &dom_lits, &[1, 1, 1], &edges, &edge_lits);
    // taken in without checking, as when more propagations are pending
    assert!(constraint.propagate(&mut solver, Lit(4), 1));
    assert!(constraint.propagate(&mut solver, Lit(1), 1));
    assert!(!constraint.propagate(&mut solver, Lit(3), 0));
    let mut reason = constraint.calc_reason(&mut solver, None, None);
    reason.sort();
    // the negations of both joining edges' literals, and the border's literal
    assert_eq!(reason, vec![Lit(1), Lit(3), Lit(4)]);
}

/// An edge inside a decided region is deduced to join; when the solver has
/// it as a border, the deduction is refused and explained with the refused
/// literal.
#[test]
fn test_graph_division_refused_deduction() {
    let edges = [(0, 1), (1, 2), (0, 2)];
    let edge_lits = [lit_of(0), lit_of(1), lit_of(2)];
    let domains = vec![vec![], vec![], vec![]];
    let dom_lits: Vec<Vec<Lit>> = vec![vec![], vec![], vec![]];
    let mut solver = FixedAssignment { values: vec![false, false, true] };
    let mut constraint = GraphDivision::new(&domains, &dom_lits, &[1, 1, 1], &edges, &edge_lits);
    assert!(constraint.propagate(&mut solver, Lit(1), 0));
    assert!(!constraint.propagate(&mut solver, Lit(3), 0));
    let mut reason = constraint.calc_reason(&mut solver, Some(Lit(5)), None);
    reason.sort();
    assert_eq!(reason, vec![Lit(1), Lit(3), Lit(5)]);
    // after taking back the second joining edge, the border between the two
    // regions makes the other edge between them a border too
    constraint.undo(&mut solver, Lit(3));
    assert!(!constraint.propagate(&mut solver, Lit(4), 0));
    let mut reason = constraint.calc_reason(&mut solver, Some(Lit(2)), None);
    reason.sort();
    assert_eq!(reason, vec![Lit(1), Lit(2), Lit(4)]);
}

/// A partial assignment that records what the propagator asserts.
struct RecordingSolver {
    known: Vec<(Lit, bool)>,
    enqueued: Vec<Lit>,
}

impl SolverManipulator for RecordingSolver {
    fn value(&self, lit: Lit) -> Option<bool> {
        for &(l, v) in &self.known {
            if l == lit {
                return Some(v);
            }
            if l.0 ^ 1 == lit.0 {
                return Some(!v);
            }
        }
        None
    }

    fn add_watch(&mut self, _lit: Lit) {}

    fn enqueue(&mut self, lit: Lit) -> bool {
        self.enqueued.push(lit);
        true
    }

    fn is_current_level(&self, _lit: Lit) -> bool {
        true
    }
}

#[test]
fn test_graph_division_merge_too_heavy() {
    // Two vertices of weight 1; the size of vertex 0 is at most 1, so the
    // edge between them must be a border (its literal Lit(4) holds).
    let mut g = GraphDivision::new(
        &[vec![1, 2], vec![1, 2]],
        &[vec![Lit(0)], vec![Lit(2)]],
        &[1, 1],
        &[(0, 1)],
        &[Lit(4)],
    );
    let mut solver = RecordingSolver { known: vec![(Lit(1), true)], enqueued: vec![] };
    assert!(g.initialize(&mut solver));
    // exactly the one deduction: the border between the two vertices
    assert_eq!(solver.enqueued, vec![Lit(4)]);
}

#[test]
fn test_graph_division_join_inside_region() {
    // A triangle where edges 0 and 1 join (their literals are false): the
    // third edge lies inside one region and must join too (Lit(5) holds).
    let mut g = GraphDivision::new(
        &[vec![], vec![], vec![]],
        &[vec![], vec![], vec![]],
        &[1, 1, 1],
        &[(0, 1), (1, 2), (0, 2)],
        &[Lit(0), Lit(2), Lit(4)],
    );
    let mut solver = RecordingSolver { known: vec![(Lit(0), false), (Lit(2), false)], enqueued: vec![] };
    assert!(g.initialize(&mut solver));
    assert!(solver.enqueued.contains(&Lit(5)));
}
